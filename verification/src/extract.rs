//! Import extraction: resolving import specifiers through the module
//! resolver, the source-map fallback for bare imports re-exported from
//! compiled bundles, and assembly of per-file extraction results into the
//! dependency graph.
use base64::Engine;
use crate::graph::{Graph, Node, NodeId};
use vstd::prelude::*;

verus! {

/// The module resolver of the oxc_resolver crate, configured once and
/// shared read-only by every extraction; its answers depend on the files on
/// disk, so nothing is assumed of them.
#[verifier::external_type_specification]
#[verifier::external_body]
#[verifier::reject_recursive_types(Fs)]
pub struct ExResolver<Fs>(oxc_resolver::ResolverGeneric<Fs>);

/// The filesystem the resolver reads through.
#[verifier::external_type_specification]
#[verifier::external_body]
pub struct ExFileSystemOs(oxc_resolver::FileSystemOs);

/// Relies on oxc_resolver::Resolver::resolve and Resolution::full_path:
/// resolves a specifier against a directory under the resolver's
/// configuration. The answer depends on what is on disk, so nothing is
/// promised of it; callers state what holds of every outcome.
#[verifier::external_body]
pub fn resolve_specifier(
    resolver: &oxc_resolver::Resolver,
    dir: &str,
    specifier: &str,
) -> (r: Option<String>) {
    match resolver.resolve(std::path::Path::new(dir), specifier) {
        Ok(resolution) => Some(resolution.full_path().to_string_lossy().to_string()),
        Err(_) => None,
    }
}

/// The lexically cleaned form of a path.
pub uninterp spec fn cleaned_of(p: Seq<char>) -> Seq<char>;

/// Relies on path_clean::clean: normalizes `.` and `..` components and
/// repeated separators lexically; a pure function of the path text.
#[verifier::external_body]
pub fn clean_path(p: &str) -> (r: String)
    ensures
        r@ == cleaned_of(p@),
{
    path_clean::clean(p).to_string_lossy().to_string()
}

/// What standard base64 decoding yields for the text, when it is valid.
pub uninterp spec fn base64_of(s: Seq<char>) -> Option<Seq<u8>>;

/// Relies on base64's standard-alphabet engine: decodes the text, or fails
/// on text that is not valid padded base64; a pure function of the text.
#[verifier::external_body]
pub fn decode_base64(s: &str) -> (r: Option<Vec<u8>>)
    ensures
        r is Some <==> base64_of(s@) is Some,
        r is Some ==> r->0@ == base64_of(s@)->0,
{
    match base64::prelude::BASE64_STANDARD.decode(s) {
        Ok(v) => Some(v),
        Err(_) => None,
    }
}

/// The `(name, source)` fields of each token of the source map the bytes
/// encode, in token order; `None` when the bytes are not a source map.
pub uninterp spec fn sourcemap_tokens_of(b: Seq<u8>) -> Option<Seq<(Option<Seq<char>>, Option<
    Seq<char>,
>)>>;

/// Relies on sourcemap::SourceMap::from_slice and Token::get_name and
/// get_source: parses the bytes as a source map and reads each token's name
/// and source fields, in token order; a pure function of the bytes.
#[verifier::external_body]
pub fn parse_sourcemap_tokens(b: &Vec<u8>) -> (r: Option<Vec<(Option<String>, Option<String>)>>)
    ensures
        r is Some <==> sourcemap_tokens_of(b@) is Some,
        r is Some ==> {
            let m = sourcemap_tokens_of(b@)->0;
            &&& r->0@.len() == m.len()
            &&& forall|i: int|
                0 <= i < m.len() ==> {
                    &&& ((#[trigger] r->0@[i]).0 is Some <==> m[i].0 is Some)
                    &&& (r->0@[i].0 is Some ==> r->0@[i].0->0@ == m[i].0->0)
                    &&& (r->0@[i].1 is Some <==> m[i].1 is Some)
                    &&& (r->0@[i].1 is Some ==> r->0@[i].1->0@ == m[i].1->0)
                }
        },
{
    match sourcemap::SourceMap::from_slice(b.as_slice()) {
        Ok(sm) => Some(
            sm.tokens().map(
                |t| (t.get_name().map(|s| s.to_string()), t.get_source().map(|s| s.to_string())),
            ).collect(),
        ),
        Err(_) => None,
    }
}

/// The text holds the pattern somewhere.
pub open spec fn contains_sub(s: Seq<char>, sub: Seq<char>) -> bool {
    exists|i: int|
        0 <= i <= s.len() - sub.len() && #[trigger] s.subrange(i, i + sub.len() as int) == sub
}

/// Whether the text holds the pattern somewhere.
fn find_sub(s: &str, sub: &str) -> (r: bool)
    ensures
        r == contains_sub(s@, sub@),
{
    let n = s.unicode_len();
    let m = sub.unicode_len();
    if m > n {
        proof {
            if contains_sub(s@, sub@) {
                let i = choose|i: int|
                    0 <= i <= s@.len() - sub@.len() && #[trigger] s@.subrange(
                        i,
                        i + sub@.len() as int,
                    ) == sub@;
            }
        }
        return false;
    }
    let mut i: usize = 0;
    while i <= n - m
        invariant
            0 <= i,
            i + m <= n + 1,
            m <= n,
            n == s@.len(),
            m == sub@.len(),
            forall|p: int|
                0 <= p < i ==> #[trigger] s@.subrange(p, p + sub@.len() as int) != sub@,
        decreases n - i,
    {
        let mut j: usize = 0;
        let mut matches = true;
        while j < m
            invariant
                0 <= j <= m,
                i + m <= n,
                n == s@.len(),
                m == sub@.len(),
                matches <==> forall|q: int| 0 <= q < j ==> s@[i + q] == sub@[q],
            decreases m - j,
        {
            if s.get_char(i + j) != sub.get_char(j) {
                matches = false;
                proof {
                    assert(s@[i + j] != sub@[j as int]);
                }
            }
            j = j + 1;
        }
        if matches {
            proof {
                assert(s@.subrange(i as int, i + sub@.len() as int) =~= sub@);
            }
            return true;
        }
        proof {
            if s@.subrange(i as int, i + sub@.len() as int) == sub@ {
                let q = choose|q: int| 0 <= q < m && s@[i + q] != sub@[q];
                assert(s@.subrange(i as int, i + sub@.len() as int)[q] == s@[i + q]);
            }
        }
        i = i + 1;
    }
    proof {
        if contains_sub(s@, sub@) {
            let p = choose|p: int|
                0 <= p <= s@.len() - sub@.len() && #[trigger] s@.subrange(
                    p,
                    p + sub@.len() as int,
                ) == sub@;
        }
    }
    false
}

/// The source-map fallback applies to an import exactly when the caller
/// supplied at least one imported identifier, the specifier is bare
/// (neither relative nor absolute), and the resolved path is not inside
/// node_modules.
pub open spec fn fallback_applies(
    specifier: Seq<char>,
    resolved: Seq<char>,
    n_identifiers: int,
) -> bool {
    &&& n_identifiers > 0
    &&& !(specifier.len() >= 1 && (specifier[0] == '.' || specifier[0] == '/'))
    &&& !contains_sub(resolved, "node_modules"@)
}

/// Decides the source-map fallback: it runs only for bare specifiers that
/// resolved outside node_modules, and only when imported identifiers were
/// supplied.
pub fn needs_sourcemap_fallback(specifier: &str, resolved: &str, n_identifiers: usize) -> (r:
    bool)
    ensures
        r == fallback_applies(specifier@, resolved@, n_identifiers as int),
{
    if n_identifiers == 0 {
        return false;
    }
    let sl = specifier.unicode_len();
    if sl >= 1 {
        let c0 = specifier.get_char(0);
        if c0 == '.' || c0 == '/' {
            return false;
        }
    }
    !find_sub(resolved, "node_modules")
}

/// The token model the fallback logic works on.
pub open spec fn tok_model(toks: Seq<(Option<String>, Option<String>)>) -> Seq<(Option<Seq<char>>, Option<Seq<char>>)> {
    toks.map_values(
        |t: (Option<String>, Option<String>)|
            (
                match t.0 {
                    Some(s) => Some(s@),
                    None => None,
                },
                match t.1 {
                    Some(s) => Some(s@),
                    None => None,
                },
            ),
    )
}

/// The source recorded for one identifier: the `source` field of the first
/// token whose name is the identifier, when that token has one.
pub open spec fn source_for(
    toks: Seq<(Option<Seq<char>>, Option<Seq<char>>)>,
    ident: Seq<char>,
) -> Option<Seq<char>>
    decreases toks.len(),
{
    if toks.len() == 0 {
        None
    } else if toks.first().0 is Some && toks.first().0->0 == ident {
        toks.first().1
    } else {
        source_for(toks.drop_first(), ident)
    }
}

/// An import path is taken as absolute when it starts with `/`.
pub open spec fn is_absolute_path(p: Seq<char>) -> bool {
    p.len() >= 1 && p[0] == '/'
}

/// The fallback import candidate one identifier yields: the matched source
/// itself when absolute, else the source joined under the resolved file's
/// parent directory.
pub open spec fn fallback_candidate(
    toks: Seq<(Option<Seq<char>>, Option<Seq<char>>)>,
    ident: Seq<char>,
    parent: Seq<char>,
) -> Option<(Seq<char>, Seq<char>)> {
    match source_for(toks, ident) {
        Some(src) => Some(
            (
                if is_absolute_path(src) {
                    src
                } else {
                    parent + "/"@ + src
                },
                src,
            ),
        ),
        None => None,
    }
}

/// Finds the first token whose name equals the identifier.
fn source_for_ident(toks: &Vec<(Option<String>, Option<String>)>, ident: &String) -> (r: Option<
    String,
>)
    ensures
        r is Some <==> source_for(tok_model(toks@), ident@) is Some,
        r is Some ==> r->0@ == source_for(tok_model(toks@), ident@)->0,
{
    let n = toks.len();
    let mut i: usize = 0;
    while i < n
        invariant
            0 <= i <= n,
            n == toks@.len(),
            forall|p: int|
                0 <= p < i ==> !((#[trigger] tok_model(toks@)[p]).0 is Some && tok_model(
                    toks@,
                )[p].0->0 == ident@),
        decreases n - i,
    {
        let hit = match &toks[i].0 {
            Some(name) => name.eq(ident),
            None => false,
        };
        if hit {
            proof {
                lemma_source_at(tok_model(toks@), i as int, ident@);
            }
            let r = match &toks[i].1 {
                Some(src) => Some(src.clone()),
                None => None,
            };
            return r;
        }
        i = i + 1;
    }
    proof {
        lemma_source_absent(tok_model(toks@), ident@);
    }
    None
}

proof fn lemma_source_at(
    toks: Seq<(Option<Seq<char>>, Option<Seq<char>>)>,
    u: int,
    ident: Seq<char>,
)
    requires
        0 <= u < toks.len(),
        toks[u].0 is Some && toks[u].0->0 == ident,
        forall|p: int| 0 <= p < u ==> !((#[trigger] toks[p]).0 is Some && toks[p].0->0 == ident),
    ensures
        source_for(toks, ident) == toks[u].1,
    decreases u,
{
    if u > 0 {
        assert(toks.drop_first()[u - 1] == toks[u]);
        assert forall|p: int| 0 <= p < u - 1 implies !((#[trigger] toks.drop_first()[p]).0 is Some
            && toks.drop_first()[p].0->0 == ident) by {
            assert(toks.drop_first()[p] == toks[p + 1]);
        }
        lemma_source_at(toks.drop_first(), u - 1, ident);
    }
}

proof fn lemma_source_absent(toks: Seq<(Option<Seq<char>>, Option<Seq<char>>)>, ident: Seq<char>)
    requires
        forall|p: int|
            0 <= p < toks.len() ==> !((#[trigger] toks[p]).0 is Some && toks[p].0->0 == ident),
    ensures
        source_for(toks, ident) is None,
    decreases toks.len(),
{
    if toks.len() > 0 {
        assert forall|p: int| 0 <= p < toks.len() - 1 implies !((
        #[trigger] toks.drop_first()[p]).0 is Some && toks.drop_first()[p].0->0 == ident) by {
            assert(toks.drop_first()[p] == toks[p + 1]);
        }
        lemma_source_absent(toks.drop_first(), ident);
    }
}

/// The fallback candidates of the supplied identifiers, in order: for each
/// identifier that some token names, the candidate path to import (the
/// token's source, joined under the resolved file's parent when relative)
/// together with the raw source. The caller canonicalizes the candidate
/// and falls back to the raw source when canonicalization fails, as the
/// filesystem decides.
pub fn fallback_candidates(
    toks: &Vec<(Option<String>, Option<String>)>,
    identifiers: &Vec<String>,
    parent: &str,
) -> (r: Vec<(String, String)>)
    ensures
        r@.len() <= identifiers@.len(),
        forall|k: int|
            0 <= k < identifiers@.len() ==> {
                let c = fallback_candidate(tok_model(toks@), (#[trigger] identifiers@[k])@, parent@);
                c is Some ==> exists|e: int|
                    0 <= e < r@.len() && ((#[trigger] r@[e]).0@ == (c->0).0 && r@[e].1@ == (c->0).1)
            },
{
    let n = identifiers.len();
    let mut r: Vec<(String, String)> = Vec::new();
    let mut k: usize = 0;
    while k < n
        invariant
            0 <= k <= n,
            n == identifiers@.len(),
            r@.len() <= k,
            forall|q: int|
                0 <= q < k ==> {
                    let c = fallback_candidate(
                        tok_model(toks@),
                        (#[trigger] identifiers@[q])@,
                        parent@,
                    );
                    c is Some ==> exists|e: int|
                        0 <= e < r@.len() && ((#[trigger] r@[e]).0@ == (c->0).0 && r@[e].1@
                            == (c->0).1)
                },
        decreases n - k,
    {
        let ghost pre = r@;
        match source_for_ident(toks, &identifiers[k]) {
            Some(src) => {
                let cand = if src.as_str().unicode_len() >= 1 && src.as_str().get_char(0) == '/' {
                    src.clone()
                } else {
                    let mut joined = parent.to_owned();
                    joined.append("/");
                    joined.append(src.as_str());
                    joined
                };
                r.push((cand, src));
                proof {
                    assert forall|q: int|
                        0 <= q < k + 1 implies {
                        let c = fallback_candidate(
                            tok_model(toks@),
                            (#[trigger] identifiers@[q])@,
                            parent@,
                        );
                        c is Some ==> exists|e: int|
                            0 <= e < r@.len() && ((#[trigger] r@[e]).0@ == (c->0).0 && r@[e].1@
                                == (c->0).1)
                    } by {
                        let c = fallback_candidate(tok_model(toks@), identifiers@[q]@, parent@);
                        if c is Some {
                            if q < k {
                                let e = choose|e: int|
                                    0 <= e < pre.len() && ((#[trigger] pre[e]).0@ == (c->0).0
                                        && pre[e].1@ == (c->0).1);
                                assert(r@[e] == pre[e]);
                            } else {
                                assert(r@[r@.len() - 1].0@ == (c->0).0 && r@[r@.len() - 1].1@
                                    == (c->0).1);
                            }
                        }
                    }
                }
            },
            None => {
                proof {
                    assert forall|q: int|
                        0 <= q < k + 1 implies {
                        let c = fallback_candidate(
                            tok_model(toks@),
                            (#[trigger] identifiers@[q])@,
                            parent@,
                        );
                        c is Some ==> exists|e: int|
                            0 <= e < r@.len() && ((#[trigger] r@[e]).0@ == (c->0).0 && r@[e].1@
                                == (c->0).1)
                    } by {}
                }
            },
        }
        k = k + 1;
    }
    r
}

/// The marker that announces an inline source map on a line of its own.
pub open spec fn marker_seq() -> Seq<char> {
    "//# sourceMappingURL=data:application/json;base64,"@
}

/// The end of the line at or after position `p`: the first newline from
/// there, or the end of the text.
pub open spec fn line_end(s: Seq<char>, p: int) -> int
    decreases s.len() - p when 0 <= p <= s.len()
{
    if p >= s.len() {
        s.len() as int
    } else if s[p] == '\n' {
        p
    } else {
        line_end(s, p + 1)
    }
}

/// A line starting at `j` that begins with the inline source-map marker.
pub open spec fn is_marker_line(s: Seq<char>, j: int) -> bool {
    &&& 0 <= j
    &&& j + marker_seq().len() <= s.len()
    &&& (j == 0 || s[j - 1] == '\n')
    &&& s.subrange(j, j + marker_seq().len() as int) == marker_seq()
}

/// The base64 payload of the last line that begins with the inline
/// source-map marker: the characters between the marker and the line's end.
/// `None` when no line begins with the marker.
pub fn inline_sourcemap_payload(content: &str) -> (r: Option<String>)
    ensures
        r is Some <==> exists|j: int| is_marker_line(content@, j),
        r is Some ==> exists|j: int|
            {
                &&& #[trigger] is_marker_line(content@, j)
                &&& r->0@ == content@.subrange(
                    j + marker_seq().len() as int,
                    line_end(content@, j + marker_seq().len() as int),
                )
                &&& forall|j2: int| j2 > j ==> !is_marker_line(content@, j2)
            },
{
    let marker = "//# sourceMappingURL=data:application/json;base64,";
    let mlen = marker.unicode_len();
    let n = content.unicode_len();
    proof {
        assert(marker@ == marker_seq());
    }
    if mlen > n {
        proof {
            if exists|j: int| is_marker_line(content@, j) {
                let j = choose|j: int| is_marker_line(content@, j);
            }
        }
        return None;
    }
    let mut j = n - mlen;
    loop
        invariant
            0 <= j <= n - mlen,
            mlen == marker_seq().len(),
            mlen <= n == content@.len(),
            forall|j2: int| j2 > j ==> !is_marker_line(content@, j2),
        decreases j + 1,
    {
        let at_start = j == 0 || content.get_char(j - 1) == '\n';
        let mut hit = at_start;
        if at_start {
            let mut q: usize = 0;
            while q < mlen
                invariant
                    0 <= q <= mlen,
                    mlen == marker_seq().len() <= n == content@.len(),
                    0 <= j <= n - mlen,
                    hit <==> forall|t: int|
                        0 <= t < q ==> content@[j + t] == marker_seq()[t],
                decreases mlen - q,
            {
                if content.get_char(j + q) != marker.get_char(q) {
                    hit = false;
                    proof {
                        assert(content@[j + q] != marker_seq()[q as int]);
                    }
                }
                q = q + 1;
            }
        }
        if hit {
            proof {
                assert(content@.subrange(j as int, j + marker_seq().len() as int) =~= marker_seq());
                assert(is_marker_line(content@, j as int));
            }
            let mut e = j + mlen;
            while e < n && content.get_char(e) != '\n'
                invariant
                    j + mlen <= e <= n,
                    n == content@.len(),
                    forall|t: int| j + mlen <= t < e ==> content@[t] != '\n',
                decreases n - e,
            {
                e = e + 1;
            }
            proof {
                lemma_line_end_at(content@, j + mlen as int, e as int);
            }
            return Some(content.substring_char(j + mlen, e).to_owned());
        }
        proof {
            if is_marker_line(content@, j as int) {
                assert(content@.subrange(j as int, j + marker_seq().len() as int)[0]
                    == content@[j as int]);
                if !at_start {
                } else {
                    let t = choose|t: int| 0 <= t < mlen && content@[j + t] != marker_seq()[t];
                    assert(content@.subrange(j as int, j + marker_seq().len() as int)[t]
                        == content@[j + t]);
                }
            }
        }
        if j == 0 {
            proof {
                if exists|j2: int| is_marker_line(content@, j2) {
                    let j2 = choose|j2: int| is_marker_line(content@, j2);
                    assert(j2 > n - mlen ==> !is_marker_line(content@, j2));
                }
            }
            return None;
        }
        j = j - 1;
    }
}

/// Scanning to the first newline finds the line's end.
proof fn lemma_line_end_at(s: Seq<char>, p: int, e: int)
    requires
        0 <= p <= e <= s.len(),
        forall|t: int| p <= t < e ==> s[t] != '\n',
        e < s.len() ==> s[e] == '\n',
    ensures
        line_end(s, p) == e,
    decreases e - p,
{
    if p < e {
        lemma_line_end_at(s, p + 1, e);
    }
}

/// Whether the discovered files and their import lists induce the directed
/// edge `(a, b)`: some file with id `a` imports a path that is some file's
/// path, and that file has id `b`.
pub open spec fn import_edge(
    files: Seq<Node>,
    imports: Seq<Vec<String>>,
    a: NodeId,
    b: NodeId,
) -> bool {
    exists|i: int, j: int, k: int|
        0 <= i < files.len() && 0 <= j < files.len() && 0 <= k < imports[i]@.len() && (
        #[trigger] files[i]).id == a && (#[trigger] files[j]).id == b && (
        #[trigger] imports[i]@[k])@ == files[j].file_path@
}

/// Merges per-file extraction results into the graph: every discovered file
/// becomes a node, and every import whose resolved path is a discovered
/// file's path becomes an edge from the importing file to it; imports
/// outside the project are discarded, and duplicate edges collapse.
pub fn assemble_graph(files: &Vec<Node>, imports: &Vec<Vec<String>>) -> (g: Graph)
    requires
        files@.len() == imports@.len(),
        forall|a: int, b: int|
            0 <= a < b < files@.len() ==> (#[trigger] files@[a]).file_path@ != (
            #[trigger] files@[b]).file_path@,
    ensures
        g.wf(),
        g.spec_nodes() == crate::graph::node_map(files@),
        forall|a: NodeId, b: NodeId|
            g.spec_edges().contains((a, b)) <==> import_edge(files@, imports@, a, b),
{
    let n = files.len();
    let mut g = Graph::new();
    let mut i: usize = 0;
    while i < n
        invariant
            0 <= i <= n,
            n == files@.len(),
            g.wf(),
            g.spec_nodes() == crate::graph::node_map(files@.subrange(0, i as int)),
            g.spec_edges() == Set::<(NodeId, NodeId)>::empty(),
        decreases n - i,
    {
        g.add_node(node_copy(&files[i]));
        proof {
            assert(files@.subrange(0, i + 1).drop_last() =~= files@.subrange(0, i as int));
            assert(files@.subrange(0, i + 1).last() == files@[i as int]);
        }
        i = i + 1;
    }
    proof {
        assert(files@.subrange(0, n as int) =~= files@);
    }
    let mut i2: usize = 0;
    while i2 < n
        invariant
            0 <= i2 <= n,
            n == files@.len() == imports@.len(),
            g.wf(),
            g.spec_nodes() == crate::graph::node_map(files@),
            forall|a: int, b: int|
                0 <= a < b < n ==> (#[trigger] files@[a]).file_path@ != (
                #[trigger] files@[b]).file_path@,
            forall|a: NodeId, b: NodeId|
                g.spec_edges().contains((a, b)) ==> import_edge(files@, imports@, a, b),
            forall|i3: int, j3: int, k3: int|
                0 <= i3 < i2 && 0 <= j3 < n && 0 <= k3 < imports@[i3]@.len() && (
                #[trigger] imports@[i3]@[k3])@ == (#[trigger] files@[j3]).file_path@
                    ==> g.spec_edges().contains(((#[trigger] files@[i3]).id, files@[j3].id)),
        decreases n - i2,
    {
        let row = &imports[i2];
        let m = row.len();
        let mut k: usize = 0;
        while k < m
            invariant
                0 <= k <= m,
                0 <= i2 < n,
                m == imports@[i2 as int]@.len(),
                row@ == imports@[i2 as int]@,
                n == files@.len() == imports@.len(),
                g.wf(),
                g.spec_nodes() == crate::graph::node_map(files@),
                forall|a: int, b: int|
                    0 <= a < b < n ==> (#[trigger] files@[a]).file_path@ != (
                    #[trigger] files@[b]).file_path@,
                forall|a: NodeId, b: NodeId|
                    g.spec_edges().contains((a, b)) ==> import_edge(files@, imports@, a, b),
                forall|i3: int, j3: int, k3: int|
                    0 <= i3 < i2 && 0 <= j3 < n && 0 <= k3 < imports@[i3]@.len() && (
                    #[trigger] imports@[i3]@[k3])@ == (#[trigger] files@[j3]).file_path@
                        ==> g.spec_edges().contains(((#[trigger] files@[i3]).id, files@[j3].id)),
                forall|j3: int, k3: int|
                    0 <= j3 < n && 0 <= k3 < k && (#[trigger] imports@[i2 as int]@[k3])@ == (
                    #[trigger] files@[j3]).file_path@ ==> g.spec_edges().contains(
                    (files@[i2 as int].id, files@[j3].id)),
            decreases m - k,
        {
            let target = &row[k];
            let nf = files.len();
            let mut j: usize = 0;
            let mut found = false;
            while j < nf
                invariant
                    0 <= j <= nf,
                    nf == files@.len(),
                    target@ == imports@[i2 as int]@[k as int]@,
                    forall|p: int| 0 <= p < j ==> (#[trigger] files@[p]).file_path@ != target@,
                    !found,
                decreases nf - j,
            {
                if files[j].file_path.eq(target) {
                    found = true;
                    break ;
                }
                j = j + 1;
            }
            if found {
                let e = crate::graph::Edge::new(files[i2].id, files[j].id);
                g.add_edge(e);
                proof {
                    assert(import_edge(files@, imports@, files@[i2 as int].id, files@[j as int].id));
                    assert forall|a: NodeId, b: NodeId|
                        g.spec_edges().contains((a, b)) implies import_edge(
                        files@,
                        imports@,
                        a,
                        b,
                    ) by {}
                }
            } else {
                proof {
                    assert forall|j3: int, k3: int|
                        0 <= j3 < n && 0 <= k3 < k + 1 && (#[trigger] imports@[i2 as int]@[k3])@
                            == (#[trigger] files@[j3]).file_path@ implies g.spec_edges().contains(
                        (files@[i2 as int].id, files@[j3].id),
                    ) by {
                        if k3 == k {
                            assert(files@[j3].file_path@ != target@);
                        }
                    }
                }
            }
            k = k + 1;
        }
        i2 = i2 + 1;
    }
    proof {
        assert forall|a: NodeId, b: NodeId|
            g.spec_edges().contains((a, b)) <==> import_edge(files@, imports@, a, b) by {
            if import_edge(files@, imports@, a, b) {
                let (i3, j3, k3) = choose|i3: int, j3: int, k3: int|
                    0 <= i3 < files@.len() && 0 <= j3 < files@.len() && 0 <= k3
                        < imports@[i3]@.len() && (#[trigger] files@[i3]).id == a && (
                    #[trigger] files@[j3]).id == b && (#[trigger] imports@[i3]@[k3])@
                        == files@[j3].file_path@;
                assert(g.spec_edges().contains((files@[i3].id, files@[j3].id)));
            }
        }
    }
    g
}

/// A copy of one node.
fn node_copy(n: &Node) -> (r: Node)
    ensures
        r == *n,
{
    Node {
        id: n.id,
        label: n.label.clone(),
        file_path: n.file_path.clone(),
        fingerprint: match &n.fingerprint {
            Some(f) => Some(
                crate::graph::FileFingerprint { size: f.size, modified_ns: f.modified_ns },
            ),
            None => None,
        },
    }
}

/// A path component that excludes its whole subtree from discovery.
pub open spec fn skipped_component(name: Seq<char>) -> bool {
    ||| name == "node_modules"@
    ||| name == ".git"@
    ||| name == "dist"@
    ||| name == "build"@
    ||| name == "coverage"@
    ||| name == ".svelte-kit"@
}

/// Decides the discovery skip rule: any path component equal to one of the
/// build, dependency or metadata directories excludes the subtree.
pub fn is_skipped_component(name: &str) -> (r: bool)
    ensures
        r == skipped_component(name@),
{
    let n = name.to_owned();
    n.eq(&"node_modules".to_owned()) || n.eq(&".git".to_owned()) || n.eq(&"dist".to_owned())
        || n.eq(&"build".to_owned()) || n.eq(&"coverage".to_owned()) || n.eq(
        &".svelte-kit".to_owned(),
    )
}

/// An extension of files that join the project graph.
pub open spec fn source_extension(ext: Seq<char>) -> bool {
    ||| ext == "ts"@
    ||| ext == "tsx"@
    ||| ext == "js"@
    ||| ext == "jsx"@
    ||| ext == "mjs"@
    ||| ext == "cjs"@
}

/// Decides the discovery accept rule: regular files join the graph exactly
/// when their extension is one of the source extensions.
pub fn is_source_extension(ext: &str) -> (r: bool)
    ensures
        r == source_extension(ext@),
{
    let e = ext.to_owned();
    e.eq(&"ts".to_owned()) || e.eq(&"tsx".to_owned()) || e.eq(&"js".to_owned()) || e.eq(
        &"jsx".to_owned(),
    ) || e.eq(&"mjs".to_owned()) || e.eq(&"cjs".to_owned())
}

} // verus!
