//! The grammar versions that a scan relied on.

use vstd::prelude::*;

use crate::order;
use crate::text;

verus! {

/// A language and the version of its grammar.
#[derive(Debug)]
pub struct GrammarVersion {
    pub language: String,
    pub version: String,
}

/// The grammar versions of languages, each language once, in ascending order.
#[derive(Debug)]
pub struct GrammarVersions {
    entries: Vec<GrammarVersion>,
}

/// The languages and versions held by a list.
pub open spec fn version_pairs(s: Seq<GrammarVersion>) -> Seq<(Seq<char>, Seq<char>)> {
    s.map_values(|e: GrammarVersion| (e.language@, e.version@))
}

/// Do the languages ascend?
pub open spec fn ascending(s: Seq<(Seq<char>, Seq<char>)>) -> bool {
    forall|i: int, j: int|
        #![trigger s[i], s[j]]
        0 <= i < j < s.len() ==> order::compare_text(s[i].0, s[j].0) < 0
}

/// The version recorded for a language.
pub open spec fn version_of(s: Seq<(Seq<char>, Seq<char>)>, language: Seq<char>) -> Option<Seq<char>>
    decreases s.len(),
{
    if s.len() == 0 {
        None
    } else if s.last().0 == language {
        Some(s.last().1)
    } else {
        version_of(s.drop_last(), language)
    }
}

impl View for GrammarVersions {
    type V = Seq<(Seq<char>, Seq<char>)>;

    closed spec fn view(&self) -> Seq<(Seq<char>, Seq<char>)> {
        version_pairs(self.entries@)
    }
}

pub proof fn lemma_version_of(s: Seq<(Seq<char>, Seq<char>)>, language: Seq<char>)
    requires
        ascending(s),
    ensures
        match version_of(s, language) {
            Some(v) => s.contains((language, v)),
            None => forall|i: int| 0 <= i < s.len() ==> (#[trigger] s[i]).0 != language,
        },
        forall|i: int|
            0 <= i < s.len() && (#[trigger] s[i]).0 == language ==> version_of(s, language) == Some(
                s[i].1,
            ),
    decreases s.len(),
{
    if s.len() > 0 {
        let init = s.drop_last();
        assert forall|i: int, j: int|
            #![trigger init[i], init[j]]
            0 <= i < j < init.len() implies order::compare_text(init[i].0, init[j].0) < 0 by {
            assert(init[i] == s[i] && init[j] == s[j]);
        }
        lemma_version_of(init, language);
        assert forall|i: int| 0 <= i < s.len() && (#[trigger] s[i]).0 == language implies version_of(
            s,
            language,
        ) == Some(s[i].1) by {
            if i < init.len() {
                assert(init[i] == s[i]);
                order::lemma_compare_text_antisymmetric(s[i].0, s.last().0);
                assert(order::compare_text(s[i].0, s[s.len() - 1].0) < 0);
            }
        }
        if s.last().0 == language {
            assert(s[s.len() - 1] == (language, s.last().1));
        } else {
            match version_of(init, language) {
                Some(v) => {
                    let k = choose|k: int| 0 <= k < init.len() && init[k] == (language, v);
                    assert(s[k] == (language, v));
                },
                None => {
                    assert forall|i: int| 0 <= i < s.len() implies (#[trigger] s[i]).0
                        != language by {
                        if i < init.len() {
                            assert(init[i] == s[i]);
                        }
                    }
                },
            }
        }
    }
}

/// Ascending lists that record the same versions are the same list.
pub proof fn lemma_versions_determined(
    a: Seq<(Seq<char>, Seq<char>)>,
    b: Seq<(Seq<char>, Seq<char>)>,
)
    requires
        ascending(a),
        ascending(b),
        forall|l: Seq<char>| version_of(a, l) == version_of(b, l),
    ensures
        a == b,
    decreases a.len() + b.len(),
{
    if a.len() == 0 && b.len() == 0 {
        assert(a =~= b);
    } else if a.len() == 0 {
        assert(version_of(b, b.last().0) is Some);
        assert(version_of(a, b.last().0) is None);
    } else if b.len() == 0 {
        assert(version_of(a, a.last().0) is Some);
        assert(version_of(b, a.last().0) is None);
    } else {
        let (x, y) = (a.last(), b.last());
        lemma_version_of(a, y.0);
        lemma_version_of(b, x.0);
        order::lemma_compare_text_antisymmetric(x.0, y.0);
        assert(version_of(a, x.0) == Some(x.1));
        assert(version_of(b, y.0) == Some(y.1));
        // The greatest language of each list is in the other one, so they are the same.
        let i = choose|i: int| 0 <= i < b.len() && b[i] == (x.0, x.1);
        let j = choose|j: int| 0 <= j < a.len() && a[j] == (y.0, y.1);
        if i < b.len() - 1 {
            assert(order::compare_text(b[i].0, b[b.len() - 1].0) < 0);
        }
        if j < a.len() - 1 {
            assert(order::compare_text(a[j].0, a[a.len() - 1].0) < 0);
        }
        assert(x.0 == y.0);
        let (p, q) = (a.drop_last(), b.drop_last());
        assert forall|i: int, j: int|
            #![trigger p[i], p[j]]
            0 <= i < j < p.len() implies order::compare_text(p[i].0, p[j].0) < 0 by {
            assert(p[i] == a[i] && p[j] == a[j]);
        }
        assert forall|i: int, j: int|
            #![trigger q[i], q[j]]
            0 <= i < j < q.len() implies order::compare_text(q[i].0, q[j].0) < 0 by {
            assert(q[i] == b[i] && q[j] == b[j]);
        }
        assert forall|l: Seq<char>| version_of(p, l) == version_of(q, l) by {
            assert(version_of(a, l) == version_of(b, l));
            if l == x.0 {
                lemma_version_of(p, l);
                lemma_version_of(q, l);
                if version_of(p, l) is Some {
                    let k = choose|k: int|
                        0 <= k < p.len() && p[k] == (l, version_of(p, l)->Some_0);
                    assert(a[k].0 == x.0);
                    assert(order::compare_text(a[k].0, a[a.len() - 1].0) < 0);
                    order::lemma_compare_text_antisymmetric(a[k].0, x.0);
                }
                if version_of(q, l) is Some {
                    let k = choose|k: int|
                        0 <= k < q.len() && q[k] == (l, version_of(q, l)->Some_0);
                    assert(b[k].0 == y.0);
                    assert(order::compare_text(b[k].0, b[b.len() - 1].0) < 0);
                    order::lemma_compare_text_antisymmetric(b[k].0, y.0);
                }
            }
        }
        lemma_versions_determined(p, q);
        assert(a =~= p.push(x));
        assert(b =~= q.push(y));
    }
}

impl GrammarVersions {
    #[verifier::type_invariant]
    closed spec fn well_formed(self) -> bool {
        ascending(version_pairs(self.entries@))
    }

    pub fn new() -> (r: Self)
        ensures
            r@ == Seq::<(Seq<char>, Seq<char>)>::empty(),
    {
        let r = GrammarVersions { entries: Vec::new() };
        assert(r@ =~= Seq::<(Seq<char>, Seq<char>)>::empty());
        r
    }

    /// The languages and versions, in ascending order of the languages.
    pub fn entries(&self) -> (r: &Vec<GrammarVersion>)
        ensures
            version_pairs(r@) == self@,
            ascending(self@),
    {
        proof {
            use_type_invariant(self);
        }
        &self.entries
    }

    /// The version recorded for a language.
    pub fn get(&self, language: &str) -> (r: Option<&String>)
        ensures
            match r {
                Some(v) => version_of(self@, language@) == Some(v@),
                None => version_of(self@, language@) is None,
            },
    {
        let ghost all = self@;
        let mut k: usize = self.entries.len();
        assert(all.take(k as int) =~= all);
        while k > 0
            invariant
                k <= self.entries@.len(),
                all == version_pairs(self.entries@),
                version_of(all, language@) == version_of(all.take(k as int), language@),
            decreases k,
        {
            assert(all.take(k as int).drop_last() =~= all.take(k - 1));
            if text::same(self.entries[k - 1].language.as_str(), language) {
                return Some(&self.entries[k - 1].version);
            }
            k = k - 1;
        }
        None
    }

    /// Record the version of a language, in place of the one recorded before.
    pub fn insert(&mut self, language: String, version: String)
        ensures
            ascending(final(self)@),
            forall|l: Seq<char>|
                #![trigger version_of(final(self)@, l)]
                version_of(final(self)@, l) == if l == language@ {
                    Some(version@)
                } else {
                    version_of(old(self)@, l)
                },
    {
        proof {
            use_type_invariant(&*self);
        }
        let ghost before = self@;
        let ghost new = (language@, version@);
        let mut out: Vec<GrammarVersion> = Vec::new();
        let n = self.entries.len();
        let mut p: usize = 0;
        // Everything below the new language stays in front of it.
        while p < n && order::compare_strings(
            self.entries[p].language.as_str(),
            language.as_str(),
        ) < 0
            invariant
                before == version_pairs(self.entries@),
                n == self.entries@.len(),
                p <= n,
                version_pairs(out@) == before.take(p as int),
                forall|i: int|
                    0 <= i < p ==> order::compare_text((#[trigger] before[i]).0, language@) < 0,
            decreases n - p,
        {
            let ghost now = version_pairs(out@);
            out.push(
                GrammarVersion {
                    language: self.entries[p].language.clone(),
                    version: self.entries[p].version.clone(),
                },
            );
            assert(version_pairs(out@) =~= now.push(before[p as int]));
            assert(version_pairs(out@) =~= before.take(p + 1));
            p = p + 1;
        }
        let ghost head = before.take(p as int);
        out.push(GrammarVersion { language: language.clone(), version });
        assert(version_pairs(out@) =~= head.push(new));
        let mut q: usize = p;
        if q < n && text::same(self.entries[q].language.as_str(), language.as_str()) {
            q = q + 1;
        }
        let start = q;
        proof {
            assert(p < n ==> before[p as int] == (
                self.entries@[p as int].language@,
                self.entries@[p as int].version@,
            ));
        }
        while q < n
            invariant
                before == version_pairs(self.entries@),
                n == self.entries@.len(),
                p <= start <= q <= n,
                version_pairs(out@) == head.push(new) + before.subrange(start as int, q as int),
            decreases n - q,
        {
            let ghost now = version_pairs(out@);
            out.push(
                GrammarVersion {
                    language: self.entries[q].language.clone(),
                    version: self.entries[q].version.clone(),
                },
            );
            assert(version_pairs(out@) =~= now.push(before[q as int]));
            assert(version_pairs(out@) =~= head.push(new) + before.subrange(start as int, q + 1));
            q = q + 1;
        }
        proof {
            let after = version_pairs(out@);
            assert(before.subrange(start as int, q as int) =~= before.subrange(
                start as int,
                before.len() as int,
            ));
            lemma_spliced_ascending(before, after, p as int, start as int, new);
            assert forall|l: Seq<char>|
                #![trigger version_of(after, l)]
                version_of(after, l) == if l == new.0 {
                    Some(new.1)
                } else {
                    version_of(before, l)
                } by {
                lemma_spliced_version(before, after, p as int, start as int, new, l);
            }
        }
        *self = GrammarVersions { entries: out };
    }
}

/// The list `before` with a new entry between the entries below it and those above it.
spec fn spliced(
    before: Seq<(Seq<char>, Seq<char>)>,
    after: Seq<(Seq<char>, Seq<char>)>,
    p: int,
    start: int,
    new: (Seq<char>, Seq<char>),
) -> bool {
    &&& ascending(before)
    &&& 0 <= p <= start <= before.len()
    &&& start <= p + 1
    &&& start == p + 1 ==> before[p].0 == new.0
    &&& start == p && p < before.len() ==> before[p].0 != new.0
    &&& forall|i: int| 0 <= i < p ==> order::compare_text((#[trigger] before[i]).0, new.0) < 0
    &&& p < before.len() ==> order::compare_text(before[p].0, new.0) >= 0
    &&& after == before.take(p).push(new) + before.subrange(start, before.len() as int)
}

proof fn lemma_spliced_items(
    before: Seq<(Seq<char>, Seq<char>)>,
    after: Seq<(Seq<char>, Seq<char>)>,
    p: int,
    start: int,
    new: (Seq<char>, Seq<char>),
)
    requires
        spliced(before, after, p, start, new),
    ensures
        after.len() == before.len() + p + 1 - start,
        after[p] == new,
        forall|i: int| 0 <= i < p ==> #[trigger] after[i] == before[i],
        forall|i: int| p < i < after.len() ==> #[trigger] after[i] == before[i + start - p - 1],
{
}

proof fn lemma_spliced_above(
    before: Seq<(Seq<char>, Seq<char>)>,
    after: Seq<(Seq<char>, Seq<char>)>,
    p: int,
    start: int,
    new: (Seq<char>, Seq<char>),
    i: int,
)
    requires
        spliced(before, after, p, start, new),
        start <= i < before.len(),
    ensures
        order::compare_text(new.0, before[i].0) < 0,
{
    order::lemma_compare_text_antisymmetric(before[p].0, new.0);
    order::lemma_compare_text_antisymmetric(before[i].0, new.0);
    if i > p {
        assert(order::compare_text(before[p].0, before[i].0) < 0);
        order::lemma_compare_text_transitive(new.0, before[p].0, before[i].0);
        if new.0 == before[i].0 {
            order::lemma_compare_text_antisymmetric(before[p].0, before[i].0);
        }
    }
}

proof fn lemma_spliced_ascending(
    before: Seq<(Seq<char>, Seq<char>)>,
    after: Seq<(Seq<char>, Seq<char>)>,
    p: int,
    start: int,
    new: (Seq<char>, Seq<char>),
)
    requires
        spliced(before, after, p, start, new),
    ensures
        ascending(after),
{
    let d = start - p - 1;
    lemma_spliced_items(before, after, p, start, new);
    assert forall|i: int, j: int|
        #![trigger after[i], after[j]]
        0 <= i < j < after.len() implies order::compare_text(after[i].0, after[j].0) < 0 by {
        if i == p {
            lemma_spliced_above(before, after, p, start, new, j + d);
        } else if j == p {
            assert(order::compare_text(before[i].0, new.0) < 0);
        } else {
            let a = if i < p {
                i
            } else {
                i + d
            };
            let b = if j < p {
                j
            } else {
                j + d
            };
            assert(after[i] == before[a] && after[j] == before[b]);
            assert(order::compare_text(before[a].0, before[b].0) < 0);
        }
    }
}

proof fn lemma_spliced_version(
    before: Seq<(Seq<char>, Seq<char>)>,
    after: Seq<(Seq<char>, Seq<char>)>,
    p: int,
    start: int,
    new: (Seq<char>, Seq<char>),
    l: Seq<char>,
)
    requires
        spliced(before, after, p, start, new),
        ascending(after),
    ensures
        version_of(after, l) == if l == new.0 {
            Some(new.1)
        } else {
            version_of(before, l)
        },
{
    let d = start - p - 1;
    lemma_spliced_items(before, after, p, start, new);
    lemma_version_of(after, l);
    lemma_version_of(before, l);
    if l == new.0 {
        assert(after[p].0 == l);
    } else {
        if version_of(after, l) is Some {
            let v = version_of(after, l)->Some_0;
            let k = choose|k: int| 0 <= k < after.len() && after[k] == (l, v);
            let m = if k < p {
                k
            } else {
                k + d
            };
            assert(before[m] == (l, v));
        }
        if version_of(before, l) is Some {
            let v = version_of(before, l)->Some_0;
            let k = choose|k: int| 0 <= k < before.len() && before[k] == (l, v);
            let m = if k < p {
                k
            } else {
                k - d
            };
            assert(after[m] == (l, v));
        }
    }
}

impl Clone for GrammarVersions {
    fn clone(&self) -> (r: Self)
        ensures
            r@ == self@,
    {
        proof {
            use_type_invariant(self);
        }
        let ghost all = self@;
        let mut out: Vec<GrammarVersion> = Vec::new();
        for i in 0..self.entries.len()
            invariant
                all == version_pairs(self.entries@),
                version_pairs(out@) == all.take(i as int),
        {
            let ghost now = version_pairs(out@);
            out.push(
                GrammarVersion {
                    language: self.entries[i].language.clone(),
                    version: self.entries[i].version.clone(),
                },
            );
            assert(version_pairs(out@) =~= now.push(all[i as int]));
            assert(version_pairs(out@) =~= all.take(i + 1));
        }
        assert(all.take(all.len() as int) =~= all);
        GrammarVersions { entries: out }
    }
}

} // verus!
