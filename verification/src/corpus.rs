//! The corpus for TF-IDF scoring: how many documents were ingested and, for
//! each token, how many documents contain it.
use vstd::prelude::*;

verus! {

/// Document statistics: `n_docs` documents ingested; `df` maps each token
/// to the number of ingested documents that contain it.
pub struct Corpus {
    pub n_docs: usize,
    pub df: Vec<(String, usize)>,
}

/// The token given, somewhere in the list.
pub open spec fn has_token(toks: Seq<String>, t: Seq<char>) -> bool {
    exists|i: int| 0 <= i < toks.len() && toks[i]@ == t
}

/// The document frequency recorded for `t` in an entry list: the last
/// matching entry's count, or zero.
pub open spec fn df_of(entries: Seq<(String, usize)>, t: Seq<char>) -> int
    decreases entries.len(),
{
    if entries.len() == 0 {
        0
    } else if entries.last().0@ == t {
        entries.last().1 as int
    } else {
        df_of(entries.drop_last(), t)
    }
}

impl Corpus {
    /// Each token has one entry, every count is positive and no count
    /// exceeds the number of ingested documents.
    pub open spec fn wf(self) -> bool {
        &&& forall|i: int, j: int|
            0 <= i < j < self.df@.len() ==> (#[trigger] self.df@[i]).0@ != (
            #[trigger] self.df@[j]).0@
        &&& forall|i: int|
            0 <= i < self.df@.len() ==> 1 <= (#[trigger] self.df@[i]).1 <= self.n_docs
    }

    /// The document frequency of a token: in how many ingested documents it
    /// occurred.
    pub open spec fn spec_df(self, t: Seq<char>) -> int {
        df_of(self.df@, t)
    }

    pub fn new() -> (c: Corpus)
        ensures
            c.wf(),
            c.n_docs == 0,
            forall|t: Seq<char>| c.spec_df(t) == 0,
    {
        let c = Corpus { n_docs: 0, df: Vec::new() };
        proof {
            assert(c.df@.len() == 0);
        }
        c
    }
}

/// One document was added: the document count rose by one, and each
/// distinct token of the document counts one more document.
pub open spec fn ingested(pre: Corpus, post: Corpus, toks: Seq<String>) -> bool {
    &&& post.n_docs == pre.n_docs + 1
    &&& forall|t: Seq<char>|
        post.spec_df(t) == pre.spec_df(t) + (if has_token(toks, t) {
            1int
        } else {
            0int
        })
}

/// Raising the count of the entry at `j` raises the recorded frequency of
/// its token by the same amount and changes no other token's frequency.
proof fn lemma_df_update(entries: Seq<(String, usize)>, j: int, add: usize)
    requires
        0 <= j < entries.len(),
        forall|a: int, b: int|
            0 <= a < b < entries.len() ==> (#[trigger] entries[a]).0@ != (#[trigger] entries[b]).0@,
        entries[j].1 + add <= usize::MAX,
    ensures
        forall|t: Seq<char>|
            df_of(entries.update(j, (entries[j].0, (entries[j].1 + add) as usize)), t) == df_of(
                entries,
                t,
            ) + (if entries[j].0@ == t {
                add as int
            } else {
                0int
            }),
    decreases entries.len(),
{
    let e2 = entries.update(j, (entries[j].0, (entries[j].1 + add) as usize));
    if j == entries.len() - 1 {
        assert(e2.drop_last() =~= entries.drop_last());
        assert(e2.last() == (entries[j].0, (entries[j].1 + add) as usize));
        assert forall|t: Seq<char>|
            df_of(e2, t) == df_of(entries, t) + (if entries[j].0@ == t {
                add as int
            } else {
                0int
            }) by {
            if entries[j].0@ != t {
                assert(df_of(e2, t) == df_of(e2.drop_last(), t));
            }
        }
    } else {
        assert(e2.drop_last() =~= entries.drop_last().update(
            j,
            (entries[j].0, (entries[j].1 + add) as usize),
        ));
        assert(entries.drop_last()[j] == entries[j]);
        lemma_df_update(entries.drop_last(), j, add);
        assert(e2.last() == entries.last());
        assert forall|t: Seq<char>|
            df_of(e2, t) == df_of(entries, t) + (if entries[j].0@ == t {
                add as int
            } else {
                0int
            }) by {
            let d = entries.drop_last();
            assert(df_of(d.update(j, (d[j].0, (d[j].1 + add) as usize)), t) == df_of(d, t) + (if d[j].0@
                == t {
                add as int
            } else {
                0int
            }));
            assert(e2.drop_last() == d.update(j, (d[j].0, (d[j].1 + add) as usize)));
            if entries.last().0@ == t {
                assert(entries[j].0@ != t);
            }
        }
    }
}

/// Every recorded frequency is at most the given bound.
proof fn lemma_df_le(entries: Seq<(String, usize)>, bound: int, t: Seq<char>)
    requires
        forall|i: int| 0 <= i < entries.len() ==> (#[trigger] entries[i]).1 <= bound,
        0 <= bound,
    ensures
        0 <= df_of(entries, t) <= bound,
    decreases entries.len(),
{
    if entries.len() > 0 {
        lemma_df_le(entries.drop_last(), bound, t);
    }
}

/// A token with no entry has frequency zero.
proof fn lemma_df_absent(entries: Seq<(String, usize)>, t: Seq<char>)
    requires
        forall|i: int| 0 <= i < entries.len() ==> (#[trigger] entries[i]).0@ != t,
    ensures
        df_of(entries, t) == 0,
    decreases entries.len(),
{
    if entries.len() > 0 {
        lemma_df_absent(entries.drop_last(), t);
    }
}

/// The entry at `j` records its token's frequency.
proof fn lemma_df_at(entries: Seq<(String, usize)>, j: int)
    requires
        0 <= j < entries.len(),
        forall|a: int, b: int|
            0 <= a < b < entries.len() ==> (#[trigger] entries[a]).0@ != (#[trigger] entries[b]).0@,
    ensures
        df_of(entries, entries[j].0@) == entries[j].1 as int,
    decreases entries.len(),
{
    if j == entries.len() - 1 {
    } else {
        assert(entries.last().0@ != entries[j].0@);
        assert(entries.drop_last()[j] == entries[j]);
        lemma_df_at(entries.drop_last(), j);
    }
}

impl Corpus {
    /// Ingests one document: the document count rises by one, and each
    /// distinct token of the document counts one more document that holds
    /// it. Duplicate occurrences within the document count only once.
    pub fn ingest_document(&mut self, tokens: &Vec<String>)
        requires
            old(self).wf(),
            old(self).n_docs < usize::MAX,
        ensures
            final(self).wf(),
            ingested(*old(self), *final(self), tokens@),
    {
        self.n_docs = self.n_docs + 1;
        let n = tokens.len();
        let mut i: usize = 0;
        while i < n
            invariant
                0 <= i <= n,
                n == tokens@.len(),
                self.n_docs == old(self).n_docs + 1,
                self.wf(),
                forall|t: Seq<char>|
                    self.spec_df(t) == old(self).spec_df(t) + (if has_token(
                        tokens@.subrange(0, i as int),
                        t,
                    ) {
                        1int
                    } else {
                        0int
                    }),
            decreases n - i,
        {
            let tok = &tokens[i];
            let mut first = true;
            let mut j: usize = 0;
            while j < i
                invariant
                    0 <= j <= i <= n,
                    n == tokens@.len(),
                    tok@ == tokens@[i as int]@,
                    first <==> forall|p: int| 0 <= p < j ==> (#[trigger] tokens@[p])@ != tok@,
                    !first ==> exists|p: int| 0 <= p < i && (#[trigger] tokens@[p])@ == tok@,
                decreases i - j,
            {
                if tokens[j].eq(tok) {
                    first = false;
                    proof {
                        assert(tokens@[j as int]@ == tok@);
                    }
                }
                j = j + 1;
            }
            let ghost pre = self.df@;
            let ghost prefix = tokens@.subrange(0, i as int);
            let ghost prefix2 = tokens@.subrange(0, i + 1);
            proof {
                assert(prefix2.drop_last() =~= prefix);
                assert(prefix2.last() == tokens@[i as int]);
                assert forall|t: Seq<char>|
                    df_of(pre, t) == old(self).spec_df(t) + (if has_token(prefix, t) {
                        1int
                    } else {
                        0int
                    }) by {
                    assert(self.spec_df(t) == old(self).spec_df(t) + (if has_token(prefix, t) {
                        1int
                    } else {
                        0int
                    }));
                }
            }
            if first {
                proof {
                    assert forall|t: Seq<char>| has_token(prefix, t) implies t != tok@ by {
                        let w = choose|w: int| 0 <= w < prefix.len() && prefix[w]@ == t;
                        assert(tokens@[w]@ == t);
                    }
                    assert forall|t: Seq<char>|
                        has_token(prefix2, t) <==> (has_token(prefix, t) || t == tok@) by {
                        if has_token(prefix2, t) {
                            let v = choose|v: int| 0 <= v < prefix2.len() && prefix2[v]@ == t;
                            if v < i as int {
                                assert(prefix[v]@ == t);
                            }
                        }
                        if has_token(prefix, t) {
                            let v = choose|v: int| 0 <= v < prefix.len() && prefix[v]@ == t;
                            assert(prefix2[v]@ == t);
                        }
                        if t == tok@ {
                            assert(prefix2[i as int]@ == t);
                        }
                    }
                }
                let m = self.df.len();
                let mut u: usize = 0;
                let mut found = false;
                while u < m
                    invariant
                        0 <= u <= m,
                        m == self.df@.len(),
                        self.df@ == pre,
                        !found ==> forall|p: int|
                            0 <= p < u ==> (#[trigger] self.df@[p]).0@ != tok@,
                        found ==> u < m && self.df@[u as int].0@ == tok@,
                    decreases m - u,
                {
                    if self.df[u].0.eq(tok) {
                        found = true;
                        break ;
                    }
                    u = u + 1;
                }
                if found {
                    proof {
                        lemma_df_at(pre, u as int);
                        lemma_df_le(old(self).df@, old(self).n_docs as int, tok@);
                        assert(pre[u as int].1 as int == self.spec_df(tok@));
                        assert(!has_token(prefix, tok@));
                        assert(pre[u as int].1 <= old(self).n_docs);
                        lemma_df_update(pre, u as int, 1);
                    }
                    let cur = self.df[u].1;
                    let key = self.df[u].0.clone();
                    self.df.set(u, (key, cur + 1));
                    proof {
                        assert(self.df@[u as int].0@ == pre[u as int].0@);
                        assert forall|t: Seq<char>|
                            df_of(self.df@, t) == df_of(pre, t) + (if pre[u as int].0@ == t {
                                1int
                            } else {
                                0int
                            }) by {
                            assert(self.df@ =~= pre.update(
                                u as int,
                                (pre[u as int].0, (pre[u as int].1 + 1) as usize),
                            )) by {
                                assert(self.df@[u as int].0 == pre[u as int].0);
                            }
                        }
                    }
                } else {
                    proof {
                        lemma_df_absent(pre, tok@);
                    }
                    self.df.push((tok.clone(), 1));
                    proof {
                        assert(self.df@.drop_last() =~= pre);
                        assert forall|t: Seq<char>|
                            df_of(self.df@, t) == df_of(pre, t) + (if tok@ == t {
                                1int
                            } else {
                                0int
                            }) by {
                            if tok@ == t {
                                lemma_df_absent(pre, t);
                            }
                        }
                    }
                }
            } else {
                proof {
                    let w = choose|w: int| 0 <= w < i && (#[trigger] tokens@[w])@ == tok@;
                    assert forall|t: Seq<char>|
                        has_token(prefix2, t) <==> has_token(prefix, t) by {
                        if has_token(prefix2, t) {
                            let v = choose|v: int| 0 <= v < prefix2.len() && prefix2[v]@ == t;
                            if v == i as int {
                                assert(prefix[w] == tokens@[w]);
                                assert(prefix[w]@ == t);
                            }
                        }
                        if has_token(prefix, t) {
                            let v = choose|v: int| 0 <= v < prefix.len() && prefix[v]@ == t;
                            assert(prefix2[v]@ == t);
                        }
                    }
                }
            }
            proof {
                assert forall|t: Seq<char>|
                    self.spec_df(t) == old(self).spec_df(t) + (if has_token(prefix2, t) {
                        1int
                    } else {
                        0int
                    }) by {
                    assert(df_of(pre, t) == old(self).spec_df(t) + (if has_token(prefix, t) {
                        1int
                    } else {
                        0int
                    }));
                    assert(self.spec_df(t) == df_of(self.df@, t));
                }
            }
            i = i + 1;
        }
        proof {
            assert(tokens@.subrange(0, n as int) =~= tokens@);
        }
    }
}

/// Ingesting the same document twice doubles the document count's increase
/// and raises each of the document's distinct tokens' frequency by exactly
/// one per ingestion; tokens outside the document are untouched.
pub proof fn lemma_ingest_twice(c0: Corpus, c1: Corpus, c2: Corpus, toks: Seq<String>)
    requires
        ingested(c0, c1, toks),
        ingested(c1, c2, toks),
    ensures
        c2.n_docs == c0.n_docs + 2,
        forall|t: Seq<char>|
            has_token(toks, t) ==> #[trigger] c2.spec_df(t) == c0.spec_df(t) + 2,
        forall|t: Seq<char>| !has_token(toks, t) ==> #[trigger] c2.spec_df(t) == c0.spec_df(t),
{
}

/// The exact TF-IDF statistics of one token of a query: every quantity of
/// the score `(tf / max(1, len)) * (ln((n_docs + 1) / (df + 1)) + 1)`.
pub struct TokenScore {
    pub token: String,
    pub tf: usize,
    pub df: usize,
    pub len: usize,
    pub n_docs: usize,
}

/// How often the token occurs in the list.
pub open spec fn count_tok(toks: Seq<String>, t: Seq<char>) -> int
    decreases toks.len(),
{
    if toks.len() == 0 {
        0
    } else {
        count_tok(toks.drop_last(), t) + if toks.last()@ == t {
            1int
        } else {
            0int
        }
    }
}

/// The distinct tokens of the list, each at its first occurrence.
pub open spec fn distinct_tokens(toks: Seq<String>) -> Seq<Seq<char>>
    decreases toks.len(),
{
    if toks.len() == 0 {
        Seq::empty()
    } else {
        let pre = distinct_tokens(toks.drop_last());
        if pre.contains(toks.last()@) {
            pre
        } else {
            pre.push(toks.last()@)
        }
    }
}

proof fn lemma_count_nonneg(toks: Seq<String>, t: Seq<char>)
    ensures
        count_tok(toks, t) >= 0,
    decreases toks.len(),
{
    if toks.len() > 0 {
        lemma_count_nonneg(toks.drop_last(), t);
    }
}

proof fn lemma_count_le_len(toks: Seq<String>, t: Seq<char>)
    ensures
        0 <= count_tok(toks, t) <= toks.len(),
    decreases toks.len(),
{
    if toks.len() > 0 {
        lemma_count_le_len(toks.drop_last(), t);
    }
}

impl Corpus {
    /// The TF-IDF statistics of a query: one entry for each distinct token
    /// of the input, in first-occurrence order, holding that token's exact
    /// term frequency, its document frequency in this corpus, the query
    /// length and the corpus size. Consumers compute and order the real
    /// scores `(tf / max(1, len)) * (ln((n_docs + 1) / (df + 1)) + 1)` from
    /// these numbers. An empty query yields an empty list.
    pub fn tfidf(&self, tokens: &Vec<String>) -> (r: Vec<TokenScore>)
        requires
            self.wf(),
        ensures
            r@.len() == distinct_tokens(tokens@).len(),
            forall|e: int|
                0 <= e < r@.len() ==> (#[trigger] r@[e]).token@ == distinct_tokens(tokens@)[e],
            forall|e: int|
                0 <= e < r@.len() ==> (#[trigger] r@[e]).tf as int == count_tok(
                    tokens@,
                    r@[e].token@,
                ),
            forall|e: int|
                0 <= e < r@.len() ==> (#[trigger] r@[e]).df as int == self.spec_df(r@[e].token@),
            forall|e: int| 0 <= e < r@.len() ==> (#[trigger] r@[e]).len == tokens@.len(),
            forall|e: int| 0 <= e < r@.len() ==> (#[trigger] r@[e]).n_docs == self.n_docs,
            tokens@.len() == 0 ==> r@.len() == 0,
    {
        let n = tokens.len();
        let mut acc: Vec<(String, usize)> = Vec::new();
        let mut i: usize = 0;
        while i < n
            invariant
                0 <= i <= n,
                n == tokens@.len(),
                acc@.len() == distinct_tokens(tokens@.subrange(0, i as int)).len(),
                forall|e: int|
                    0 <= e < acc@.len() ==> (#[trigger] acc@[e]).0@ == distinct_tokens(
                        tokens@.subrange(0, i as int),
                    )[e],
                forall|e: int|
                    0 <= e < acc@.len() ==> (#[trigger] acc@[e]).1 as int == count_tok(
                        tokens@.subrange(0, i as int),
                        acc@[e].0@,
                    ),
                forall|a: int, b: int|
                    0 <= a < b < acc@.len() ==> (#[trigger] acc@[a]).0@ != (#[trigger] acc@[b]).0@,
            decreases n - i,
        {
            let tok = &tokens[i];
            let ghost prefix = tokens@.subrange(0, i as int);
            let ghost prefix2 = tokens@.subrange(0, i + 1);
            let ghost dpre = distinct_tokens(prefix);
            proof {
                assert(prefix2.drop_last() =~= prefix);
                assert(prefix2.last() == tokens@[i as int]);
                lemma_count_le_len(prefix, tok@);
                assert forall|t: Seq<char>|
                    count_tok(prefix2, t) == count_tok(prefix, t) + (if tok@ == t {
                        1int
                    } else {
                        0int
                    }) by {}
            }
            let m = acc.len();
            let mut u: usize = 0;
            let mut found = false;
            while u < m
                invariant
                    0 <= u <= m,
                    m == acc@.len(),
                    tok@ == tokens@[i as int]@,
                    !found ==> forall|p: int| 0 <= p < u ==> (#[trigger] acc@[p]).0@ != tok@,
                    found ==> u < m && acc@[u as int].0@ == tok@,
                decreases m - u,
            {
                if acc[u].0.eq(tok) {
                    found = true;
                    break ;
                }
                u = u + 1;
            }
            let ghost pre_acc = acc@;
            if found {
                proof {
                    assert(dpre.contains(tok@)) by {
                        assert(dpre[u as int] == tok@);
                    }
                    assert(distinct_tokens(prefix2) == dpre);
                    lemma_count_le_len(prefix2, tok@);
                }
                let cur = acc[u].1;
                let key = acc[u].0.clone();
                proof {
                    assert(cur as int == count_tok(prefix, tok@));
                    assert(count_tok(prefix2, tok@) <= prefix2.len() <= n);
                }
                acc.set(u, (key, cur + 1));
                proof {
                    assert forall|e: int|
                        0 <= e < acc@.len() implies (#[trigger] acc@[e]).1 as int == count_tok(
                        prefix2,
                        acc@[e].0@,
                    ) by {
                        if e == u as int {
                        } else {
                            assert(acc@[e] == pre_acc[e]);
                            assert(pre_acc[e].0@ != tok@);
                        }
                    }
                }
            } else {
                proof {
                    if dpre.contains(tok@) {
                        let w = choose|w: int| 0 <= w < dpre.len() && dpre[w] == tok@;
                        assert(pre_acc[w].0@ == tok@);
                        assert(false);
                    }
                    assert(distinct_tokens(prefix2) == dpre.push(tok@));
                    lemma_count_absent(prefix, tok@, pre_acc);
                }
                acc.push((tok.clone(), 1));
                proof {
                    assert(acc@.drop_last() =~= pre_acc);
                    assert forall|e: int|
                        0 <= e < acc@.len() implies (#[trigger] acc@[e]).1 as int == count_tok(
                        prefix2,
                        acc@[e].0@,
                    ) by {
                        if e < pre_acc.len() {
                            assert(acc@[e] == pre_acc[e]);
                            assert(pre_acc[e].0@ != tok@);
                        } else {
                            assert(acc@[e].0@ == tok@);
                            assert(count_tok(prefix, tok@) == 0);
                        }
                    }
                }
            }
            i = i + 1;
        }
        proof {
            assert(tokens@.subrange(0, n as int) =~= tokens@);
        }
        // --- attach document frequencies ---
        let mut r: Vec<TokenScore> = Vec::new();
        let m2 = acc.len();
        let mut v: usize = 0;
        while v < m2
            invariant
                0 <= v <= m2,
                m2 == acc@.len(),
                self.wf(),
                r@.len() == v,
                acc@.len() == distinct_tokens(tokens@).len(),
                forall|e: int|
                    0 <= e < acc@.len() ==> (#[trigger] acc@[e]).0@ == distinct_tokens(tokens@)[e],
                forall|e: int|
                    0 <= e < acc@.len() ==> (#[trigger] acc@[e]).1 as int == count_tok(
                        tokens@,
                        acc@[e].0@,
                    ),
                forall|e: int|
                    0 <= e < v ==> (#[trigger] r@[e]).token@ == distinct_tokens(tokens@)[e],
                forall|e: int|
                    0 <= e < v ==> (#[trigger] r@[e]).tf as int == count_tok(
                        tokens@,
                        r@[e].token@,
                    ),
                forall|e: int|
                    0 <= e < v ==> (#[trigger] r@[e]).df as int == self.spec_df(r@[e].token@),
                forall|e: int| 0 <= e < v ==> (#[trigger] r@[e]).len == tokens@.len(),
                forall|e: int| 0 <= e < v ==> (#[trigger] r@[e]).n_docs == self.n_docs,
            decreases m2 - v,
        {
            let tok = acc[v].0.clone();
            let tf = acc[v].1;
            let dfv = self.lookup_df(&tok);
            r.push(
                TokenScore { token: tok, tf, df: dfv, len: tokens.len(), n_docs: self.n_docs },
            );
            v = v + 1;
        }
        r
    }

    /// The document frequency recorded for a token, zero when the token was
    /// never seen.
    pub fn lookup_df(&self, tok: &String) -> (r: usize)
        requires
            self.wf(),
        ensures
            r as int == self.spec_df(tok@),
    {
        let m = self.df.len();
        let mut u: usize = 0;
        while u < m
            invariant
                0 <= u <= m,
                m == self.df@.len(),
                forall|p: int| 0 <= p < u ==> (#[trigger] self.df@[p]).0@ != tok@,
            decreases m - u,
        {
            if self.df[u].0.eq(tok) {
                proof {
                    lemma_df_last_match(self.df@, u as int, tok@);
                }
                return self.df[u].1;
            }
            u = u + 1;
        }
        proof {
            lemma_df_absent(self.df@, tok@);
        }
        0
    }
}

/// When a token occurs in none of the accumulated entries, its count over
/// the scanned tokens is zero.
proof fn lemma_count_absent(prefix: Seq<String>, t: Seq<char>, acc: Seq<(String, usize)>)
    requires
        acc.len() == distinct_tokens(prefix).len(),
        forall|e: int| 0 <= e < acc.len() ==> (#[trigger] acc[e]).0@ == distinct_tokens(prefix)[e],
        !distinct_tokens(prefix).contains(t),
    ensures
        count_tok(prefix, t) == 0,
    decreases prefix.len(),
{
    if prefix.len() > 0 {
        let dp = distinct_tokens(prefix.drop_last());
        assert forall|x: Seq<char>| dp.contains(x) implies distinct_tokens(prefix).contains(
            x,
        ) by {
            let w = choose|w: int| 0 <= w < dp.len() && dp[w] == x;
            if distinct_tokens(prefix) == dp {
                assert(distinct_tokens(prefix)[w] == x);
            } else {
                assert(distinct_tokens(prefix)[w] == x);
            }
        }
        assert(!dp.contains(t));
        lemma_count_absent_rec(prefix.drop_last(), t, dp);
        assert(prefix.last()@ != t) by {
            if prefix.last()@ == t {
                if dp.contains(t) {
                } else {
                    assert(distinct_tokens(prefix).last() == t);
                }
            }
        }
    }
}

proof fn lemma_count_absent_rec(prefix: Seq<String>, t: Seq<char>, dp: Seq<Seq<char>>)
    requires
        dp == distinct_tokens(prefix),
        !dp.contains(t),
    ensures
        count_tok(prefix, t) == 0,
    decreases prefix.len(),
{
    if prefix.len() > 0 {
        let d0 = distinct_tokens(prefix.drop_last());
        assert forall|x: Seq<char>| d0.contains(x) implies dp.contains(x) by {
            let w = choose|w: int| 0 <= w < d0.len() && d0[w] == x;
            assert(dp[w] == x);
        }
        lemma_count_absent_rec(prefix.drop_last(), t, d0);
        assert(prefix.last()@ != t) by {
            if prefix.last()@ == t {
                if d0.contains(t) {
                } else {
                    assert(dp.last() == t);
                }
            }
        }
    }
}

/// The first matching entry is also the last when keys are unique up to it.
proof fn lemma_df_last_match(entries: Seq<(String, usize)>, u: int, t: Seq<char>)
    requires
        0 <= u < entries.len(),
        entries[u].0@ == t,
        forall|p: int| 0 <= p < u ==> (#[trigger] entries[p]).0@ != t,
        forall|a: int, b: int|
            0 <= a < b < entries.len() ==> (#[trigger] entries[a]).0@ != (#[trigger] entries[b]).0@,
    ensures
        df_of(entries, t) == entries[u].1 as int,
{
    lemma_df_at(entries, u);
}

} // verus!
