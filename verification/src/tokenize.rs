//! The two tokenizers behind the labeler: identifier tokens of a source
//! file, and path tokens. Both lower-case through the same casing transform
//! that splits camelCase, PascalCase and snake_case into space-separated
//! words, then keep only pieces of at least three bytes.
use convert_case::Casing;
use oxc_span::SourceType;
use vstd::prelude::*;
use vstd::string::StrSliceExecFns;

verus! {

use vstd::utf8::encode_utf8;

/// What the casing transform returns for the given characters: the words of
/// the input, separated by single spaces and lower-cased.
pub uninterp spec fn lower_of(s: Seq<char>) -> Seq<char>;

/// Relies on convert_case's Casing::to_case with Case::Lower: splits word
/// boundaries (camelCase, PascalCase, snake_case) and lower-cases, joining
/// the words with spaces. The result depends on the input characters alone.
#[verifier::external_body]
fn to_lower_words(s: &str) -> (r: String)
    ensures
        r@ == lower_of(s@),
{
    s.to_case(convert_case::Case::Lower)
}

/// Whether a character is a Unicode letter or digit.
pub uninterp spec fn alphanumeric(c: char) -> bool;

/// Relies on char::is_alphanumeric: whether the character is a Unicode
/// letter or digit; a pure function of the character.
#[verifier::external_body]
fn is_alphanumeric_char(c: char) -> (r: bool)
    ensures
        r == alphanumeric(c),
{
    c.is_alphanumeric()
}

/// The identifier tokens that lexing the source under the dialect selected
/// for the given file extension yields: identifiers that are not keywords,
/// in source order.
pub uninterp spec fn identifiers_of(src: Seq<char>, ext: Seq<char>) -> Seq<Seq<char>>;

/// Relies on oxc_parser's lexer: yields each identifier token that is not a
/// keyword, in source order, under the dialect the extension selects (tsx,
/// ts, jsx, mjs, cjs; js as unambiguous JS with JSX and modules; otherwise
/// plain unambiguous). The result depends on source and extension alone.
#[verifier::external_body]
fn lex_identifiers(src: &str, ext: &str) -> (r: Vec<String>)
    ensures
        r.deep_view() == identifiers_of(src@, ext@),
{
    let st = if ext == "js" {
        SourceType::unambiguous().with_jsx(true).with_module(true)
    } else {
        SourceType::from_extension(ext).unwrap_or(SourceType::unambiguous())
    };
    let alloc = oxc_allocator::Allocator::default();
    let mut lx = oxc_parser::lexer::Lexer::new_for_benchmarks(&alloc, src, st, oxc_parser::config::NoTokensLexerConfig);
    let mut out = Vec::new();
    loop {
        let t = lx.next_token();
        if t.kind().is_eof() { break; }
        if t.kind().is_identifier() && !t.kind().is_any_keyword() { out.push(src[t.span().start as usize..t.span().end as usize].to_string()); }
    }
    out
}

/// Splits on spaces, front to back, with the word read so far; empty pieces
/// are dropped.
pub open spec fn split_sp(s: Seq<char>, cur: Seq<char>) -> Seq<Seq<char>>
    decreases s.len(),
{
    if s.len() == 0 {
        if cur.len() == 0 {
            Seq::empty()
        } else {
            seq![cur]
        }
    } else if s[0] == ' ' {
        (if cur.len() == 0 {
            Seq::<Seq<char>>::empty()
        } else {
            seq![cur]
        }) + split_sp(s.drop_first(), Seq::empty())
    } else {
        split_sp(s.drop_first(), cur.push(s[0]))
    }
}

/// Splits on characters that are not letters or digits, front to back.
pub open spec fn split_na(s: Seq<char>, cur: Seq<char>) -> Seq<Seq<char>>
    decreases s.len(),
{
    if s.len() == 0 {
        if cur.len() == 0 {
            Seq::empty()
        } else {
            seq![cur]
        }
    } else if !alphanumeric(s[0]) {
        (if cur.len() == 0 {
            Seq::<Seq<char>>::empty()
        } else {
            seq![cur]
        }) + split_na(s.drop_first(), Seq::empty())
    } else {
        split_na(s.drop_first(), cur.push(s[0]))
    }
}

/// At least three bytes in UTF-8 form, as a machine string reports its
/// byte length.
pub open spec fn long_piece(w: Seq<char>) -> bool {
    encode_utf8(w).len() as usize >= 3
}

/// The pieces of at least three bytes, in order.
pub open spec fn keep_long(ws: Seq<Seq<char>>) -> Seq<Seq<char>>
    decreases ws.len(),
{
    if ws.len() == 0 {
        Seq::empty()
    } else {
        keep_long(ws.drop_last()) + (if long_piece(ws.last()) {
            seq![ws.last()]
        } else {
            Seq::<Seq<char>>::empty()
        })
    }
}

/// Splits a string at spaces and keeps the pieces of at least three bytes.
fn split_spaces_long(s: &str) -> (r: Vec<String>)
    ensures
        r.deep_view() == keep_long(split_sp(s@, Seq::empty())),
{
    let n = s.unicode_len();
    let mut out: Vec<String> = Vec::new();
    let mut start: usize = 0;
    let mut i: usize = 0;
    proof {
        assert(s@.skip(0) =~= s@);
        assert(s@.subrange(0, 0) =~= Seq::<char>::empty());
        assert(out.deep_view() =~= Seq::<Seq<char>>::empty());
        assert(out.deep_view() + split_sp(s@, Seq::empty()) =~= split_sp(s@, Seq::empty()));
    }
    while i < n
        invariant
            0 <= start <= i <= n,
            n == s@.len(),
            forall|p: int| start <= p < i ==> s@[p] != ' ',
            keep_long(split_sp(s@, Seq::empty())) == keep_long(
                out.deep_view() + split_sp(s@.skip(i as int), s@.subrange(start as int, i as int)),
            ),
            out.deep_view().len() <= i,
            forall|e: int|
                0 <= e < out.deep_view().len() ==> long_piece(#[trigger] out.deep_view()[e]),
        decreases n - i,
    {
        let c = s.get_char(i);
        let ghost rem = s@.skip(i as int);
        let ghost cur = s@.subrange(start as int, i as int);
        proof {
            assert(rem[0] == s@[i as int]);
            assert(rem.drop_first() =~= s@.skip(i + 1));
        }
        if c == ' ' {
            let ghost pre_out = out.deep_view();
            let w = s.substring_char(start, i);
            if w.len() >= 3 {
                out.push(w.to_owned());
                proof {
                    assert(out.deep_view() =~~= pre_out.push(cur));
                }
            }
            proof {
                lemma_keep_extend(pre_out, cur, split_sp(s@.skip(i + 1), Seq::empty()));
                assert(s@.subrange(i + 1, i + 1) =~= Seq::<char>::empty());
                if long_piece(cur) {
                    assert(out.deep_view() =~~= pre_out.push(cur));
                } else {
                    assert(out.deep_view() =~= pre_out);
                }
            }
            start = i + 1;
        } else {
            proof {
                assert(s@.subrange(start as int, i + 1) =~= cur.push(s@[i as int]));
            }
        }
        i = i + 1;
    }
    let ghost rem = s@.skip(n as int);
    let ghost cur = s@.subrange(start as int, n as int);
    proof {
        assert(rem =~= Seq::<char>::empty());
    }
    let ghost pre_out = out.deep_view();
    let w = s.substring_char(start, n);
    if w.len() >= 3 {
        out.push(w.to_owned());
        proof {
            assert(out.deep_view() =~~= pre_out.push(cur));
        }
    }
    proof {
        lemma_keep_final(pre_out, cur);
        if long_piece(cur) {
            assert(out.deep_view() =~~= pre_out.push(cur));
        } else {
            assert(out.deep_view() =~= pre_out);
        }
        lemma_keep_emit(out.deep_view(), Seq::empty());
        assert(keep_long(out.deep_view()) == out.deep_view());
    }
    out
}

/// Keeping long pieces distributes over emitting the current word.
proof fn lemma_keep_extend(done: Seq<Seq<char>>, cur: Seq<char>, rest: Seq<Seq<char>>)
    requires
        forall|e: int| 0 <= e < done.len() ==> long_piece(#[trigger] done[e]),
    ensures
        keep_long(done + ((if cur.len() == 0 {
            Seq::<Seq<char>>::empty()
        } else {
            seq![cur]
        }) + rest)) == keep_long(
            (if long_piece(cur) {
                done.push(cur)
            } else {
                done
            }) + rest,
        ),
    decreases rest.len(),
{
    let emit: Seq<Seq<char>> = if cur.len() == 0 {
        Seq::empty()
    } else {
        seq![cur]
    };
    let done2: Seq<Seq<char>> = if long_piece(cur) {
        done.push(cur)
    } else {
        done
    };
    if rest.len() == 0 {
        assert(done + (emit + rest) =~= done + emit);
        assert(done2 + rest =~= done2);
        lemma_keep_emit(done, cur);
    } else {
        let r0 = rest.drop_last();
        assert((done + (emit + rest)).drop_last() =~= done + (emit + r0));
        assert((done2 + rest).drop_last() =~= done2 + r0);
        assert((done + (emit + rest)).last() == rest.last());
        assert((done2 + rest).last() == rest.last());
        lemma_keep_extend(done, cur, r0);
    }
}

/// Keeping long pieces of finished words plus one word.
proof fn lemma_keep_emit(done: Seq<Seq<char>>, cur: Seq<char>)
    requires
        forall|e: int| 0 <= e < done.len() ==> long_piece(#[trigger] done[e]),
    ensures
        keep_long(done + (if cur.len() == 0 {
            Seq::<Seq<char>>::empty()
        } else {
            seq![cur]
        })) == keep_long(
            if long_piece(cur) {
                done.push(cur)
            } else {
                done
            },
        ),
        keep_long(done) == done,
    decreases done.len(),
{
    if done.len() == 0 {
        assert(keep_long(done) =~= done);
        if cur.len() == 0 {
            assert(done + Seq::<Seq<char>>::empty() =~= done);
            lemma_encode_empty(cur);
        } else {
            assert(done + seq![cur] =~= Seq::<Seq<char>>::empty().push(cur));
            assert(Seq::<Seq<char>>::empty().push(cur).drop_last() =~= done);
            if long_piece(cur) {
                assert(keep_long(done.push(cur)) =~= keep_long(done) + seq![cur]);
            }
        }
    } else {
        lemma_keep_emit(done.drop_last(), cur);
        if cur.len() == 0 {
            assert(done + Seq::<Seq<char>>::empty() =~= done);
            lemma_encode_empty(cur);
            assert(keep_long(done) =~= done);
        } else {
            let whole = done + seq![cur];
            assert(whole.drop_last() =~= done);
            assert(whole.last() == cur);
            assert(keep_long(done) =~= done) by {
                assert(keep_long(done.drop_last()) == done.drop_last());
                assert(keep_long(done) =~= keep_long(done.drop_last()) + seq![done.last()]);
            }
            if long_piece(cur) {
                assert(done.push(cur).drop_last() =~= done);
                assert(keep_long(done.push(cur)) =~= keep_long(done) + seq![cur]);
                assert(keep_long(whole) =~= keep_long(done) + seq![cur]);
            } else {
                assert(keep_long(whole) =~= keep_long(done));
            }
        }
    }
}

/// The empty word encodes to no bytes.
proof fn lemma_encode_empty(cur: Seq<char>)
    requires
        cur.len() == 0,
    ensures
        encode_utf8(cur).len() == 0,
        !long_piece(cur),
{
    assert(cur =~= Seq::<char>::empty());
    assert(encode_utf8(cur) =~= Seq::<u8>::empty());
}

/// Splitting the remaining empty input yields just the current word.
proof fn lemma_keep_final(done: Seq<Seq<char>>, cur: Seq<char>)
    requires
        forall|e: int| 0 <= e < done.len() ==> long_piece(#[trigger] done[e]),
    ensures
        keep_long(done + split_sp(Seq::empty(), cur)) == keep_long(
            if long_piece(cur) {
                done.push(cur)
            } else {
                done
            },
        ),
{
    lemma_keep_emit(done, cur);
    if cur.len() == 0 {
        assert(split_sp(Seq::empty(), cur) =~= Seq::<Seq<char>>::empty());
    } else {
        assert(split_sp(Seq::empty(), cur) =~= seq![cur]);
    }
}

/// Splits a string at characters that are not letters or digits and keeps
/// the pieces of at least three bytes.
fn split_alnum_long(s: &str) -> (r: Vec<String>)
    ensures
        r.deep_view() == keep_long(split_na(s@, Seq::empty())),
{
    let n = s.unicode_len();
    let mut out: Vec<String> = Vec::new();
    let mut start: usize = 0;
    let mut i: usize = 0;
    proof {
        assert(s@.skip(0) =~= s@);
        assert(s@.subrange(0, 0) =~= Seq::<char>::empty());
        assert(out.deep_view() =~= Seq::<Seq<char>>::empty());
        assert(out.deep_view() + split_na(s@, Seq::empty()) =~= split_na(s@, Seq::empty()));
    }
    while i < n
        invariant
            0 <= start <= i <= n,
            n == s@.len(),
            forall|p: int| start <= p < i ==> alphanumeric(s@[p]),
            keep_long(split_na(s@, Seq::empty())) == keep_long(
                out.deep_view() + split_na(s@.skip(i as int), s@.subrange(start as int, i as int)),
            ),
            forall|e: int| 0 <= e < out.deep_view().len() ==> long_piece(#[trigger] out.deep_view()[e]),
        decreases n - i,
    {
        let c = s.get_char(i);
        let ghost rem = s@.skip(i as int);
        let ghost cur = s@.subrange(start as int, i as int);
        proof {
            assert(rem[0] == s@[i as int]);
            assert(rem.drop_first() =~= s@.skip(i + 1));
        }
        if !is_alphanumeric_char(c) {
            let ghost pre_out = out.deep_view();
            let w = s.substring_char(start, i);
            if w.len() >= 3 {
                out.push(w.to_owned());
                proof {
                    assert(out.deep_view() =~~= pre_out.push(cur));
                }
            }
            proof {
                lemma_keep_extend_na(pre_out, cur, split_na(s@.skip(i + 1), Seq::empty()));
                assert(s@.subrange(i + 1, i + 1) =~= Seq::<char>::empty());
                if long_piece(cur) {
                    assert(out.deep_view() =~~= pre_out.push(cur));
                } else {
                    assert(out.deep_view() =~= pre_out);
                }
            }
            start = i + 1;
        } else {
            proof {
                assert(s@.subrange(start as int, i + 1) =~= cur.push(s@[i as int]));
            }
        }
        i = i + 1;
    }
    let ghost rem = s@.skip(n as int);
    let ghost cur = s@.subrange(start as int, n as int);
    proof {
        assert(rem =~= Seq::<char>::empty());
    }
    let ghost pre_out = out.deep_view();
    let w = s.substring_char(start, n);
    if w.len() >= 3 {
        out.push(w.to_owned());
        proof {
            assert(out.deep_view() =~~= pre_out.push(cur));
        }
    }
    proof {
        lemma_keep_emit(pre_out, cur);
        if cur.len() == 0 {
            assert(split_na(Seq::empty(), cur) =~= Seq::<Seq<char>>::empty());
        } else {
            assert(split_na(Seq::empty(), cur) =~= seq![cur]);
        }
        if long_piece(cur) {
            assert(out.deep_view() =~~= pre_out.push(cur));
        } else {
            assert(out.deep_view() =~= pre_out);
        }
        lemma_keep_emit(out.deep_view(), Seq::empty());
        assert(keep_long(out.deep_view()) == out.deep_view());
    }
    out
}

/// Same as lemma_keep_extend, over the non-alphanumeric split.
proof fn lemma_keep_extend_na(done: Seq<Seq<char>>, cur: Seq<char>, rest: Seq<Seq<char>>)
    requires
        forall|e: int| 0 <= e < done.len() ==> long_piece(#[trigger] done[e]),
    ensures
        keep_long(done + ((if cur.len() == 0 {
            Seq::<Seq<char>>::empty()
        } else {
            seq![cur]
        }) + rest)) == keep_long(
            (if long_piece(cur) {
                done.push(cur)
            } else {
                done
            }) + rest,
        ),
    decreases rest.len(),
{
    let emit: Seq<Seq<char>> = if cur.len() == 0 {
        Seq::empty()
    } else {
        seq![cur]
    };
    let done2: Seq<Seq<char>> = if long_piece(cur) {
        done.push(cur)
    } else {
        done
    };
    if rest.len() == 0 {
        assert(done + (emit + rest) =~= done + emit);
        assert(done2 + rest =~= done2);
        lemma_keep_emit(done, cur);
    } else {
        let r0 = rest.drop_last();
        assert((done + (emit + rest)).drop_last() =~= done + (emit + r0));
        assert((done2 + rest).drop_last() =~= done2 + r0);
        assert((done + (emit + rest)).last() == rest.last());
        assert((done2 + rest).last() == rest.last());
        lemma_keep_extend_na(done, cur, r0);
    }
}

/// The tokens one identifier contributes: nothing for the literal
/// `undefined`, otherwise the long pieces of its lower-cased word split.
pub open spec fn ident_tokens(id: Seq<char>) -> Seq<Seq<char>> {
    if id == "undefined"@ {
        Seq::empty()
    } else {
        keep_long(split_sp(lower_of(id), Seq::empty()))
    }
}

/// The file-channel tokens of a list of identifiers, in order.
pub open spec fn file_tokens_of(ids: Seq<Seq<char>>) -> Seq<Seq<char>>
    decreases ids.len(),
{
    if ids.len() == 0 {
        Seq::empty()
    } else {
        file_tokens_of(ids.drop_last()) + ident_tokens(ids.last())
    }
}

/// The path-channel tokens of a file path: the project prefix is stripped
/// when present, the rest is lower-cased by the casing transform and split
/// at every character that is not a letter or digit.
pub open spec fn path_tokens_of(path: Seq<char>, project: Seq<char>) -> Seq<Seq<char>> {
    let stripped = if path.len() >= project.len() && path.subrange(0, project.len() as int)
        == project {
        path.skip(project.len() as int)
    } else {
        path
    };
    keep_long(split_na(lower_of(stripped), Seq::empty()))
}

/// The file-content tokenizer: lexes the source under the dialect its
/// extension selects, keeps identifier tokens that are neither keywords nor
/// the literal `undefined`, lower-cases them through the casing transform,
/// splits at spaces and keeps pieces of at least three bytes.
pub fn tokenize_file(source: &str, ext: &str) -> (r: Vec<String>)
    ensures
        r.deep_view() == file_tokens_of(identifiers_of(source@, ext@)),
{
    let ids = lex_identifiers(source, ext);
    let undef = "undefined".to_owned();
    let ghost idv = identifiers_of(source@, ext@);
    let mut out: Vec<String> = Vec::new();
    let n = ids.len();
    let mut i: usize = 0;
    proof {
        assert(ids.deep_view().len() == ids@.len());
        assert(idv.subrange(0, 0).len() == 0);
        assert(out.deep_view() =~= Seq::<Seq<char>>::empty());
    }
    while i < n
        invariant
            0 <= i <= n,
            n == ids@.len(),
            ids.deep_view() == idv,
            undef@ == "undefined"@,
            out.deep_view() == file_tokens_of(idv.subrange(0, i as int)),
        decreases n - i,
    {
        let ghost pre = out.deep_view();
        proof {
            assert(idv.subrange(0, i + 1).drop_last() =~= idv.subrange(0, i as int));
            assert(idv.subrange(0, i + 1).last() == idv[i as int]);
            assert(ids@[i as int]@ == ids.deep_view()[i as int]);
        }
        if !ids[i].eq(&undef) {
            let lw = to_lower_words(ids[i].as_str());
            let words = split_spaces_long(lw.as_str());
            let m = words.len();
            let mut j: usize = 0;
            while j < m
                invariant
                    0 <= j <= m,
                    m == words@.len(),
                    out.deep_view() =~= pre + words.deep_view().subrange(0, j as int),
                decreases m - j,
            {
                let ghost before = out.deep_view();
                out.push(words[j].clone());
                proof {
                    assert(words@[j as int]@ == words.deep_view()[j as int]);
                    assert(out.deep_view() =~~= before.push(words.deep_view()[j as int]));
                    assert(out.deep_view() =~= pre + words.deep_view().subrange(0, j + 1));
                }
                j = j + 1;
            }
            proof {
                assert(words.deep_view().subrange(0, m as int) =~= words.deep_view());
                assert(ident_tokens(idv[i as int]) == words.deep_view());
                assert(out.deep_view() =~= pre + ident_tokens(idv[i as int]));
            }
        } else {
            proof {
                assert(idv[i as int] == "undefined"@);
                assert(ident_tokens(idv[i as int]) =~= Seq::<Seq<char>>::empty());
                assert(out.deep_view() =~= pre + ident_tokens(idv[i as int]));
            }
        }
        i = i + 1;
    }
    proof {
        assert(idv.subrange(0, n as int) =~= idv);
    }
    out
}

/// The path tokenizer: strips the project path prefix when present,
/// lower-cases through the casing transform, splits on any character that
/// is not a letter or digit and keeps pieces of at least three bytes.
pub fn tokenize_path(path: &str, project_path: &str) -> (r: Vec<String>)
    ensures
        r.deep_view() == path_tokens_of(path@, project_path@),
{
    let n = path.unicode_len();
    let pl = project_path.unicode_len();
    let mut is_prefix = pl <= n;
    let mut i: usize = 0;
    while is_prefix && i < pl
        invariant
            0 <= i <= pl,
            pl == project_path@.len(),
            n == path@.len(),
            is_prefix ==> pl <= n && forall|p: int| 0 <= p < i ==> path@[p] == project_path@[p],
            !is_prefix ==> pl > n || exists|p: int|
                0 <= p < pl && path@[p] != project_path@[p],
        decreases pl - i,
    {
        if path.get_char(i) != project_path.get_char(i) {
            is_prefix = false;
            proof {
                assert(path@[i as int] != project_path@[i as int]);
            }
        }
        i = i + 1;
    }
    let stripped = if is_prefix {
        proof {
            assert(path@.subrange(0, pl as int) =~= project_path@);
        }
        path.substring_char(pl, n)
    } else {
        proof {
            if path@.len() >= project_path@.len() && path@.subrange(0, pl as int)
                == project_path@ {
                let p = choose|p: int| 0 <= p < pl && path@[p] != project_path@[p];
                assert(path@.subrange(0, pl as int)[p] == path@[p]);
            }
        }
        path.substring_char(0, n)
    };
    proof {
        if is_prefix {
            assert(stripped@ =~= path@.skip(pl as int));
        } else {
            assert(stripped@ =~= path@);
        }
    }
    let lw = to_lower_words(stripped);
    split_alnum_long(lw.as_str())
}

} // verus!
