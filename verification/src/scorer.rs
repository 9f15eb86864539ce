//! TF-IDF scoring over pre-tokenized documents, and the project labeler
//! that combines the file-content channel with the path channel.
use crate::corpus::{
    count_tok, distinct_tokens, has_token, ingested, Corpus, TokenScore,
};
use crate::graph::basename_of;
use crate::tokenize::{
    file_tokens_of, identifiers_of, path_tokens_of, tokenize_file, tokenize_path,
};
use vstd::prelude::*;

verus! {

/// A scorer over one token channel: each ingested document's path and its
/// token list.
pub struct TokensScorer {
    pub tokens: Vec<(String, Vec<String>)>,
}

/// The token list stored for a path: the first entry with that path.
pub open spec fn lookup_toks(entries: Seq<(String, Vec<String>)>, p: Seq<char>) -> Option<
    Seq<String>,
>
    decreases entries.len(),
{
    if entries.len() == 0 {
        None
    } else if entries.first().0@ == p {
        Some(entries.first().1@)
    } else {
        lookup_toks(entries.drop_first(), p)
    }
}

/// In how many stored documents the token occurs.
pub open spec fn docs_with(entries: Seq<(String, Vec<String>)>, t: Seq<char>) -> int
    decreases entries.len(),
{
    if entries.len() == 0 {
        0
    } else {
        docs_with(entries.drop_last(), t) + if has_token(entries.last().1@, t) {
            1int
        } else {
            0int
        }
    }
}

/// The tokens of the selected paths, concatenated: each distinct selected
/// path contributes its stored token list once, in selection order; paths
/// that are repeated or not stored contribute nothing more.
pub open spec fn gathered(entries: Seq<(String, Vec<String>)>, sel: Seq<String>) -> Seq<String>
    decreases sel.len(),
{
    if sel.len() == 0 {
        Seq::empty()
    } else {
        let pre = gathered(entries, sel.drop_last());
        if has_token(sel.drop_last(), sel.last()@) {
            pre
        } else {
            match lookup_toks(entries, sel.last()@) {
                Some(t) => pre + t,
                None => pre,
            }
        }
    }
}

/// What `run` returns: the TF-IDF statistics of the gathered tokens against
/// the corpus of all stored documents.
pub open spec fn run_post(
    entries: Seq<(String, Vec<String>)>,
    sel: Seq<String>,
    r: Seq<TokenScore>,
) -> bool {
    let all = gathered(entries, sel);
    &&& r.len() == distinct_tokens(all).len()
    &&& forall|e: int| 0 <= e < r.len() ==> (#[trigger] r[e]).token@ == distinct_tokens(all)[e]
    &&& forall|e: int| 0 <= e < r.len() ==> (#[trigger] r[e]).tf as int == count_tok(all, r[e].token@)
    &&& forall|e: int|
        0 <= e < r.len() ==> (#[trigger] r[e]).df as int == docs_with(entries, r[e].token@)
    &&& forall|e: int| 0 <= e < r.len() ==> (#[trigger] r[e]).len == all.len()
    &&& forall|e: int| 0 <= e < r.len() ==> (#[trigger] r[e]).n_docs == entries.len()
}

proof fn lemma_lookup_at(entries: Seq<(String, Vec<String>)>, u: int, p: Seq<char>)
    requires
        0 <= u < entries.len(),
        entries[u].0@ == p,
        forall|q: int| 0 <= q < u ==> (#[trigger] entries[q]).0@ != p,
    ensures
        lookup_toks(entries, p) == Some(entries[u].1@),
    decreases u,
{
    if u > 0 {
        assert(entries.drop_first()[u - 1] == entries[u]);
        assert forall|q: int| 0 <= q < u - 1 implies (#[trigger] entries.drop_first()[q]).0@
            != p by {
            assert(entries.drop_first()[q] == entries[q + 1]);
        }
        lemma_lookup_at(entries.drop_first(), u - 1, p);
    }
}

proof fn lemma_lookup_absent(entries: Seq<(String, Vec<String>)>, p: Seq<char>)
    requires
        forall|q: int| 0 <= q < entries.len() ==> (#[trigger] entries[q]).0@ != p,
    ensures
        lookup_toks(entries, p) is None,
    decreases entries.len(),
{
    if entries.len() > 0 {
        assert forall|q: int| 0 <= q < entries.len() - 1 implies (
        #[trigger] entries.drop_first()[q]).0@ != p by {
            assert(entries.drop_first()[q] == entries[q + 1]);
        }
        lemma_lookup_absent(entries.drop_first(), p);
    }
}

impl TokensScorer {
    pub fn new() -> (s: TokensScorer)
        ensures
            s.tokens@.len() == 0,
    {
        TokensScorer { tokens: Vec::new() }
    }

    /// Stores the tokenized documents, replacing what was stored before.
    /// Tokenization itself is the caller's: each pair is a path and the
    /// token list its document yields.
    pub fn ingest(&mut self, files: Vec<(String, Vec<String>)>)
        ensures
            final(self).tokens == files,
    {
        self.tokens = files;
    }

    /// Scores the selected documents against the corpus of every stored
    /// document: gathers the stored token lists of the distinct selected
    /// paths (missing paths are skipped) into one bag and returns its
    /// TF-IDF statistics.
    pub fn run(&self, selected: &Vec<String>) -> (r: Vec<TokenScore>)
        requires
            self.tokens@.len() < usize::MAX,
        ensures
            run_post(self.tokens@, selected@, r@),
    {
        let entries = &self.tokens;
        let ne = entries.len();
        let mut corpus = Corpus::new();
        let mut d: usize = 0;
        proof {
            assert forall|t: Seq<char>|
                corpus.spec_df(t) == docs_with(entries@.subrange(0, 0), t) by {
                assert(entries@.subrange(0, 0).len() == 0);
            }
        }
        while d < ne
            invariant
                0 <= d <= ne,
                ne == entries@.len() < usize::MAX,
                entries == &self.tokens,
                corpus.wf(),
                corpus.n_docs == d,
                forall|t: Seq<char>|
                    corpus.spec_df(t) == docs_with(entries@.subrange(0, d as int), t),
            decreases ne - d,
        {
            let ghost pre = corpus;
            corpus.ingest_document(&entries[d].1);
            proof {
                assert(entries@.subrange(0, d + 1).drop_last() =~= entries@.subrange(0, d as int));
                assert(entries@.subrange(0, d + 1).last() == entries@[d as int]);
                assert(ingested(pre, corpus, entries@[d as int].1@));
            }
            d = d + 1;
        }
        proof {
            assert(entries@.subrange(0, ne as int) =~= entries@);
        }
        // --- gather the selected documents' tokens ---
        let ns = selected.len();
        let mut all: Vec<String> = Vec::new();
        let mut q: usize = 0;
        proof {
            assert(gathered(entries@, selected@.subrange(0, 0)) =~= Seq::<String>::empty());
        }
        while q < ns
            invariant
                0 <= q <= ns,
                ns == selected@.len(),
                entries == &self.tokens,
                all@ == gathered(entries@, selected@.subrange(0, q as int)),
            decreases ns - q,
        {
            let pathq = &selected[q];
            let ghost selpre = selected@.subrange(0, q as int);
            let ghost selpre2 = selected@.subrange(0, q + 1);
            proof {
                assert(selpre2.drop_last() =~= selpre);
                assert(selpre2.last() == selected@[q as int]);
            }
            let mut firstq = true;
            let mut w: usize = 0;
            while w < q
                invariant
                    0 <= w <= q < ns,
                    ns == selected@.len(),
                    pathq@ == selected@[q as int]@,
                    firstq <==> forall|p: int| 0 <= p < w ==> (#[trigger] selected@[p])@ != pathq@,
                    !firstq ==> exists|p: int|
                        0 <= p < q && (#[trigger] selected@[p])@ == pathq@,
                decreases q - w,
            {
                if selected[w].eq(pathq) {
                    firstq = false;
                }
                w = w + 1;
            }
            if firstq {
                proof {
                    assert forall|t2: Seq<char>| has_token(selpre, t2) implies t2 != pathq@ by {
                        let v = choose|v: int| 0 <= v < selpre.len() && selpre[v]@ == t2;
                        assert(selected@[v]@ == t2);
                    }
                }
                let me = entries.len();
                let mut u: usize = 0;
                let mut foundq = false;
                while u < me
                    invariant
                        0 <= u <= me,
                        me == entries@.len(),
                        entries == &self.tokens,
                        pathq@ == selected@[q as int]@,
                        forall|p: int| 0 <= p < u ==> (#[trigger] entries@[p]).0@ != pathq@,
                        foundq ==> u < me && entries@[u as int].0@ == pathq@,
                    decreases me - u,
                {
                    if entries[u].0.eq(pathq) {
                        foundq = true;
                        break ;
                    }
                    u = u + 1;
                }
                if foundq {
                    proof {
                        lemma_lookup_at(entries@, u as int, pathq@);
                    }
                    let ghost pre_all = all@;
                    let lst = &entries[u].1;
                    let ml = lst.len();
                    let mut v: usize = 0;
                    while v < ml
                        invariant
                            0 <= v <= ml,
                            ml == lst@.len(),
                            lst@ == entries@[u as int].1@,
                            all@ =~= pre_all + lst@.subrange(0, v as int),
                        decreases ml - v,
                    {
                        all.push(lst[v].clone());
                        proof {
                            assert(lst@[v as int]@ == entries@[u as int].1@[v as int]@);
                            assert(all@ =~= pre_all + lst@.subrange(0, v + 1));
                        }
                        v = v + 1;
                    }
                    proof {
                        assert(lst@.subrange(0, ml as int) =~= lst@);
                    }
                } else {
                    proof {
                        lemma_lookup_absent(entries@, pathq@);
                    }
                }
            } else {
                proof {
                    let v = choose|v: int| 0 <= v < q && (#[trigger] selected@[v])@ == pathq@;
                    assert(selpre[v]@ == pathq@);
                    assert(has_token(selpre, pathq@));
                }
            }
            q = q + 1;
        }
        proof {
            assert(selected@.subrange(0, ns as int) =~= selected@);
        }
        corpus.tfidf(&all)
    }
}

/// Everything after the last `.` of the path's basename, or nothing when
/// the basename holds no `.` past its first character.
pub open spec fn extension_of(path: Seq<char>) -> Seq<char> {
    let b = basename_of(path);
    let e = after_last_dot(b);
    if e.len() + 2 <= b.len() {
        e
    } else {
        Seq::empty()
    }
}

/// The suffix after the last `.`, or the whole text when it has no `.`.
pub open spec fn after_last_dot(s: Seq<char>) -> Seq<char>
    decreases s.len(),
{
    if s.len() == 0 {
        s
    } else if s.last() == '.' {
        Seq::<char>::empty()
    } else {
        after_last_dot(s.drop_last()).push(s.last())
    }
}

/// After position `k` there is no `.`, so the suffix after the last dot
/// starts at `k`.
proof fn lemma_dot_suffix(s: Seq<char>, k: int)
    requires
        0 <= k <= s.len(),
        forall|i: int| k <= i < s.len() ==> s[i] != '.',
        k == 0 || s[k - 1] == '.',
    ensures
        after_last_dot(s) == s.subrange(k, s.len() as int),
    decreases s.len(),
{
    if s.len() == 0 {
        assert(after_last_dot(s) =~= s.subrange(k, s.len() as int));
    } else if s.last() == '.' {
        assert(k == s.len());
        assert(after_last_dot(s) =~= s.subrange(k, s.len() as int));
    } else {
        lemma_dot_suffix(s.drop_last(), k);
        assert(s.drop_last().subrange(k, s.len() - 1) =~= s.subrange(k, s.len() - 1));
        assert(after_last_dot(s) =~= s.subrange(k, s.len() as int));
    }
}

/// The extension of a file path: what follows the last `.` of its basename,
/// empty when the basename has no `.` past its first character.
pub fn extension(path: &String) -> (r: String)
    ensures
        r@ == extension_of(path@),
{
    let b = crate::graph::base_name(path);
    let s = b.as_str();
    let n = s.unicode_len();
    let mut k = n;
    while k > 0
        invariant
            0 <= k <= n,
            n == s@.len(),
            forall|i: int| k <= i < n ==> s@[i] != '.',
        decreases k,
    {
        if s.get_char(k - 1) == '.' {
            break ;
        }
        k = k - 1;
    }
    proof {
        lemma_dot_suffix(s@, k as int);
    }
    if k >= 2 {
        s.substring_char(k, n).to_owned()
    } else {
        proof {
            assert(extension_of(path@) =~= Seq::<char>::empty());
        }
        String::new()
    }
}


/// One labeled token: its statistics in the file-content channel and in the
/// path channel, either of which may be missing. The combined label score
/// is the exact sum of the two channels' scores, a missing channel adding
/// zero; consumers compute that sum from the two statistics.
pub struct LabelEntry {
    pub token: String,
    pub file: Option<TokenScore>,
    pub path: Option<TokenScore>,
}

/// The first entry with the given token.
pub open spec fn find_score(ss: Seq<TokenScore>, t: Seq<char>) -> Option<TokenScore>
    decreases ss.len(),
{
    if ss.len() == 0 {
        None
    } else if ss.first().token@ == t {
        Some(ss.first())
    } else {
        find_score(ss.drop_first(), t)
    }
}

/// Some entry holds the token.
pub open spec fn has_score(ss: Seq<TokenScore>, t: Seq<char>) -> bool {
    exists|i: int| 0 <= i < ss.len() && (#[trigger] ss[i]).token@ == t
}

/// The merged token list: the file channel's tokens, then the path
/// channel's tokens that the file channel lacks, in order.
pub open spec fn merged_tokens(fs: Seq<TokenScore>, ps: Seq<TokenScore>) -> Seq<Seq<char>>
    decreases ps.len(),
{
    if ps.len() == 0 {
        Seq::new(fs.len(), |i: int| fs[i].token@)
    } else {
        merged_tokens(fs, ps.drop_last()) + (if has_score(fs, ps.last().token@) {
            Seq::<Seq<char>>::empty()
        } else {
            seq![ps.last().token@]
        })
    }
}

/// What the combination of the two channels returns: one entry per token of
/// either channel, holding exactly that token's file-channel statistics and
/// its path-channel statistics; a channel without the token is `None`, so
/// the combined score of every entry is the sum of its channels' scores.
pub open spec fn combined(fs: Seq<TokenScore>, ps: Seq<TokenScore>, r: Seq<LabelEntry>) -> bool {
    &&& r.len() == merged_tokens(fs, ps).len()
    &&& forall|e: int| 0 <= e < r.len() ==> (#[trigger] r[e]).token@ == merged_tokens(fs, ps)[e]
    &&& forall|e: int| 0 <= e < r.len() ==> (#[trigger] r[e]).file == find_score(fs, r[e].token@)
    &&& forall|e: int| 0 <= e < r.len() ==> (#[trigger] r[e]).path == find_score(ps, r[e].token@)
}

proof fn lemma_find_at(ss: Seq<TokenScore>, u: int, t: Seq<char>)
    requires
        0 <= u < ss.len(),
        ss[u].token@ == t,
        forall|q: int| 0 <= q < u ==> (#[trigger] ss[q]).token@ != t,
    ensures
        find_score(ss, t) == Some(ss[u]),
    decreases u,
{
    if u > 0 {
        assert(ss.drop_first()[u - 1] == ss[u]);
        assert forall|q: int| 0 <= q < u - 1 implies (#[trigger] ss.drop_first()[q]).token@
            != t by {
            assert(ss.drop_first()[q] == ss[q + 1]);
        }
        lemma_find_at(ss.drop_first(), u - 1, t);
    }
}

proof fn lemma_find_absent(ss: Seq<TokenScore>, t: Seq<char>)
    requires
        forall|q: int| 0 <= q < ss.len() ==> (#[trigger] ss[q]).token@ != t,
    ensures
        find_score(ss, t) is None,
    decreases ss.len(),
{
    if ss.len() > 0 {
        assert forall|q: int| 0 <= q < ss.len() - 1 implies (#[trigger] ss.drop_first()[q]).token@
            != t by {
            assert(ss.drop_first()[q] == ss[q + 1]);
        }
        lemma_find_absent(ss.drop_first(), t);
    }
}

/// A copy of one statistics record.
fn copy_score(ts: &TokenScore) -> (r: TokenScore)
    ensures
        r == *ts,
{
    TokenScore {
        token: ts.token.clone(),
        tf: ts.tf,
        df: ts.df,
        len: ts.len,
        n_docs: ts.n_docs,
    }
}

/// Looks a token up in a channel's result.
fn find_in(ss: &Vec<TokenScore>, tok: &String) -> (r: Option<TokenScore>)
    ensures
        r == find_score(ss@, tok@),
{
    let n = ss.len();
    let mut u: usize = 0;
    while u < n
        invariant
            0 <= u <= n,
            n == ss@.len(),
            forall|q: int| 0 <= q < u ==> (#[trigger] ss@[q]).token@ != tok@,
        decreases n - u,
    {
        if ss[u].token.eq(tok) {
            proof {
                lemma_find_at(ss@, u as int, tok@);
            }
            return Some(copy_score(&ss[u]));
        }
        u = u + 1;
    }
    proof {
        lemma_find_absent(ss@, tok@);
    }
    None
}

/// Combines the two channels token-wise: every token of either channel gets
/// one entry holding both channels' statistics for it, so the combined
/// score of a token is the exact sum of its file-channel and path-channel
/// scores, with a missing channel adding zero.
pub fn combine_channels(fs: &Vec<TokenScore>, ps: &Vec<TokenScore>) -> (r: Vec<LabelEntry>)
    requires
        forall|a: int, b: int|
            0 <= a < b < fs@.len() ==> (#[trigger] fs@[a]).token@ != (#[trigger] fs@[b]).token@,
    ensures
        combined(fs@, ps@, r@),
{
    let mut r: Vec<LabelEntry> = Vec::new();
    let nf = fs.len();
    let mut i: usize = 0;
    proof {
        assert(merged_tokens(fs@, ps@.subrange(0, 0)) =~= Seq::new(
            fs@.len(),
            |e: int| fs@[e].token@,
        ));
    }
    while i < nf
        invariant
            0 <= i <= nf,
            nf == fs@.len(),
            r@.len() == i,
            forall|a: int, b: int|
                0 <= a < b < fs@.len() ==> (#[trigger] fs@[a]).token@ != (#[trigger] fs@[b]).token@,
            forall|e: int| 0 <= e < i ==> (#[trigger] r@[e]).token@ == fs@[e].token@,
            forall|e: int| 0 <= e < i ==> (#[trigger] r@[e]).file == find_score(fs@, r@[e].token@),
            forall|e: int| 0 <= e < i ==> (#[trigger] r@[e]).path == find_score(ps@, r@[e].token@),
        decreases nf - i,
    {
        let tok = fs[i].token.clone();
        proof {
            lemma_find_at(fs@, i as int, tok@);
        }
        let pathside = find_in(ps, &tok);
        r.push(LabelEntry { token: tok, file: Some(copy_score(&fs[i])), path: pathside });
        i = i + 1;
    }
    let np = ps.len();
    let mut j: usize = 0;
    proof {
        assert(ps@.subrange(0, 0).len() == 0);
    }
    while j < np
        invariant
            0 <= j <= np,
            np == ps@.len(),
            nf == fs@.len(),
            forall|a: int, b: int|
                0 <= a < b < fs@.len() ==> (#[trigger] fs@[a]).token@ != (#[trigger] fs@[b]).token@,
            r@.len() == merged_tokens(fs@, ps@.subrange(0, j as int)).len(),
            forall|e: int|
                0 <= e < r@.len() ==> (#[trigger] r@[e]).token@ == merged_tokens(
                    fs@,
                    ps@.subrange(0, j as int),
                )[e],
            forall|e: int|
                0 <= e < r@.len() ==> (#[trigger] r@[e]).file == find_score(fs@, r@[e].token@),
            forall|e: int|
                0 <= e < r@.len() ==> (#[trigger] r@[e]).path == find_score(ps@, r@[e].token@),
        decreases np - j,
    {
        let ghost pj = ps@.subrange(0, j as int);
        let ghost pj2 = ps@.subrange(0, j + 1);
        proof {
            assert(pj2.drop_last() =~= pj);
            assert(pj2.last() == ps@[j as int]);
        }
        let tok = ps[j].token.clone();
        let fileside = find_in(fs, &tok);
        match fileside {
            Some(fsc) => {
                proof {
                    assert(has_score(fs@, ps@[j as int].token@)) by {
                        if find_score(fs@, tok@) is Some {
                            lemma_find_some_has(fs@, tok@);
                        }
                    }
                }
            },
            None => {
                proof {
                    assert(!has_score(fs@, ps@[j as int].token@)) by {
                        if has_score(fs@, tok@) {
                            lemma_find_first(fs@, tok@);
                        }
                    }
                }
                let pathside = find_in(ps, &tok);
                r.push(LabelEntry { token: tok, file: None, path: pathside });
            },
        }
        j = j + 1;
    }
    proof {
        assert(ps@.subrange(0, np as int) =~= ps@);
    }
    r
}

/// A found token is held by some entry.
proof fn lemma_find_some_has(ss: Seq<TokenScore>, t: Seq<char>)
    requires
        find_score(ss, t) is Some,
    ensures
        has_score(ss, t),
    decreases ss.len(),
{
    if ss.len() > 0 {
        if ss.first().token@ == t {
            assert(ss[0].token@ == t);
        } else {
            lemma_find_some_has(ss.drop_first(), t);
            let w = choose|w: int|
                0 <= w < ss.drop_first().len() && (#[trigger] ss.drop_first()[w]).token@ == t;
            assert(ss[w + 1].token@ == t);
        }
    }
}

/// A held token is found.
proof fn lemma_find_first(ss: Seq<TokenScore>, t: Seq<char>)
    requires
        has_score(ss, t),
    ensures
        find_score(ss, t) is Some,
    decreases ss.len(),
{
    if ss.len() > 0 && ss.first().token@ != t {
        let w = choose|w: int| 0 <= w < ss.len() && (#[trigger] ss[w]).token@ == t;
        assert(ss.drop_first()[w - 1].token@ == t);
        assert(has_score(ss.drop_first(), t));
        lemma_find_first(ss.drop_first(), t);
    }
}

/// The project labeler: a file-content scorer and a path scorer, both
/// ingested with the whole project's documents once, queried on subsets.
pub struct ProjectLabeler {
    pub file_scorer: TokensScorer,
    pub path_scorer: TokensScorer,
}

/// What a stored channel holds after construction: one document per given
/// file, under its path, with the channel's tokens of that file.
pub open spec fn channel_post(
    entries: Seq<(String, Vec<String>)>,
    files: Seq<(String, String)>,
    project_path: Seq<char>,
    file_channel: bool,
) -> bool {
    &&& entries.len() == files.len()
    &&& forall|i: int| 0 <= i < entries.len() ==> (#[trigger] entries[i]).0@ == files[i].0@
    &&& forall|i: int|
        0 <= i < entries.len() ==> (#[trigger] entries[i]).1.deep_view() == (if file_channel {
            file_tokens_of(identifiers_of(files[i].1@, extension_of(files[i].0@)))
        } else {
            path_tokens_of(files[i].0@, project_path)
        })
}

/// What label_files returns: the token-wise combination of the file
/// channel's and the path channel's scores over the selected files.
pub open spec fn label_post(pl: ProjectLabeler, sel: Seq<String>, r: Seq<LabelEntry>) -> bool {
    exists|fs: Seq<TokenScore>, ps: Seq<TokenScore>|
        {
            &&& #[trigger] run_post(pl.file_scorer.tokens@, sel, fs)
            &&& #[trigger] run_post(pl.path_scorer.tokens@, sel, ps)
            &&& combined(fs, ps, r)
        }
}

/// The distinct tokens of a list are pairwise distinct.
proof fn lemma_distinct_nodup(toks: Seq<String>)
    ensures
        forall|a: int, b: int|
            0 <= a < b < distinct_tokens(toks).len() ==> distinct_tokens(toks)[a]
                != distinct_tokens(toks)[b],
    decreases toks.len(),
{
    if toks.len() > 0 {
        lemma_distinct_nodup(toks.drop_last());
        let pre = distinct_tokens(toks.drop_last());
        let whole = distinct_tokens(toks);
        if !pre.contains(toks.last()@) {
            assert(whole == pre.push(toks.last()@));
            assert forall|a: int, b: int| 0 <= a < b < whole.len() implies whole[a]
                != whole[b] by {
                if b == whole.len() - 1 {
                    if whole[a] == whole[b] {
                        assert(pre[a] == toks.last()@);
                        assert(pre.contains(toks.last()@));
                    }
                }
            }
        }
    }
}

impl ProjectLabeler {
    /// Builds the labeler for a project: each given file is a path and its
    /// contents. The file channel tokenizes the contents under the dialect
    /// the path's extension selects; the path channel tokenizes the path
    /// with the project prefix stripped. Both channels ingest every file
    /// once. Reading the files is the caller's; a file whose contents could
    /// not be read is given as an empty string and contributes an empty
    /// token list, as a failed read does.
    pub fn new(project_path: String, project_files: Vec<(String, String)>) -> (pl: ProjectLabeler)
        ensures
            channel_post(pl.file_scorer.tokens@, project_files@, project_path@, true),
            channel_post(pl.path_scorer.tokens@, project_files@, project_path@, false),
    {
        let n = project_files.len();
        let mut ftoks: Vec<(String, Vec<String>)> = Vec::new();
        let mut ptoks: Vec<(String, Vec<String>)> = Vec::new();
        let mut i: usize = 0;
        while i < n
            invariant
                0 <= i <= n,
                n == project_files@.len(),
                ftoks@.len() == i,
                ptoks@.len() == i,
                forall|k: int|
                    0 <= k < i ==> (#[trigger] ftoks@[k]).0@ == project_files@[k].0@,
                forall|k: int|
                    0 <= k < i ==> (#[trigger] ftoks@[k]).1.deep_view() == file_tokens_of(
                        identifiers_of(
                            project_files@[k].1@,
                            extension_of(project_files@[k].0@),
                        ),
                    ),
                forall|k: int|
                    0 <= k < i ==> (#[trigger] ptoks@[k]).0@ == project_files@[k].0@,
                forall|k: int|
                    0 <= k < i ==> (#[trigger] ptoks@[k]).1.deep_view() == path_tokens_of(
                        project_files@[k].0@,
                        project_path@,
                    ),
            decreases n - i,
        {
            let path = project_files[i].0.clone();
            let ext = extension(&path);
            let ft = tokenize_file(project_files[i].1.as_str(), ext.as_str());
            let pt = tokenize_path(path.as_str(), project_path.as_str());
            let path2 = path.clone();
            ftoks.push((path, ft));
            ptoks.push((path2, pt));
            i = i + 1;
        }
        let mut file_scorer = TokensScorer::new();
        file_scorer.ingest(ftoks);
        let mut path_scorer = TokensScorer::new();
        path_scorer.ingest(ptoks);
        ProjectLabeler { file_scorer, path_scorer }
    }

    /// Labels the selected files: runs the file-content channel and the
    /// path channel over them and combines the two score lists token-wise;
    /// each returned entry holds both channels' statistics for its token,
    /// whose combined score is their exact sum, a missing channel adding
    /// zero.
    pub fn label_files(&self, selected: &Vec<String>) -> (r: Vec<LabelEntry>)
        requires
            self.file_scorer.tokens@.len() < usize::MAX,
            self.path_scorer.tokens@.len() < usize::MAX,
        ensures
            label_post(*self, selected@, r@),
    {
        let fs = self.file_scorer.run(selected);
        let ps = self.path_scorer.run(selected);
        proof {
            lemma_distinct_nodup(
                gathered(self.file_scorer.tokens@, selected@),
            );
            assert forall|a: int, b: int|
                0 <= a < b < fs@.len() implies (#[trigger] fs@[a]).token@ != (
            #[trigger] fs@[b]).token@ by {
                let all = gathered(self.file_scorer.tokens@, selected@);
                assert(fs@[a].token@ == distinct_tokens(all)[a]);
                assert(fs@[b].token@ == distinct_tokens(all)[b]);
            }
        }
        let r = combine_channels(&fs, &ps);
        proof {
            assert(run_post(self.file_scorer.tokens@, selected@, fs@));
            assert(run_post(self.path_scorer.tokens@, selected@, ps@));
            assert(combined(fs@, ps@, r@));
        }
        r
    }
}

} // verus!
