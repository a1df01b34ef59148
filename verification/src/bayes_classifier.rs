//! Training and inference for a multinomial naive Bayes classifier.
//!
//! Class labels are opaque `u64` identifiers; tokens are `String`s produced by
//! a [`Tokenize`] implementation chosen by the caller. All statistics are
//! integer occurrence counts held in insertion-ordered association lists, and
//! scores are exact rationals, so every step of training and scoring is
//! verified arithmetic.

use vstd::prelude::*;

verus! {

/// A capability of content types: turn a value into an ordered sequence of
/// discrete tokens. Tokenization must be a pure function of the content's
/// value, described exactly by `spec_tokens`.
pub trait Tokenize {
    /// The sequence of tokens this content denotes.
    spec fn spec_tokens(&self) -> Seq<Seq<char>>;

    /// Produce the token sequence described by `spec_tokens`.
    fn tokenize(&self) -> (r: Vec<String>)
        ensures
            r@.len() == self.spec_tokens().len(),
            forall|i: int| 0 <= i < r@.len() ==> #[trigger] r@[i]@ == self.spec_tokens()[i],
    ;
}

/// Does the association list `s` hold an entry for key `k`?
pub open spec fn pair_has_key(s: Seq<(u64, u64)>, k: u64) -> bool
    decreases s.len(),
{
    if s.len() == 0 {
        false
    } else if s[0].0 == k {
        true
    } else {
        pair_has_key(s.drop_first(), k)
    }
}

/// The count recorded for key `k` in `s`, or 0 when `k` is absent.
pub open spec fn pair_value(s: Seq<(u64, u64)>, k: u64) -> nat
    decreases s.len(),
{
    if s.len() == 0 {
        0
    } else if s[0].0 == k {
        s[0].1 as nat
    } else {
        pair_value(s.drop_first(), k)
    }
}

/// The sum of all counts recorded in `s`.
pub open spec fn pair_sum(s: Seq<(u64, u64)>) -> nat
    decreases s.len(),
{
    if s.len() == 0 {
        0
    } else {
        (s[0].1 + pair_sum(s.drop_first())) as nat
    }
}

/// No two entries of `s` share a key.
pub open spec fn pair_keys_distinct(s: Seq<(u64, u64)>) -> bool {
    forall|i: int, j: int| 0 <= i < j < s.len() ==> s[i].0 != s[j].0
}

/// Occurrence counts for one statistical record: a total and a breakdown by
/// class. Invariant (see `wf`): the per-class counts are keyed distinctly,
/// each is at least 1, and they sum exactly to the total.
pub struct Counts {
    total: u64,
    per_class: Vec<(u64, u64)>,
}

impl Counts {
    /// The total occurrence count of this record.
    pub closed spec fn spec_total(self) -> u64 {
        self.total
    }

    /// The per-class entries of this record, in first-seen order.
    pub closed spec fn pairs(self) -> Seq<(u64, u64)> {
        self.per_class@
    }

    /// The occurrence count recorded under class `c` (0 when absent).
    pub open spec fn count_for(self, c: u64) -> nat {
        pair_value(self.pairs(), c)
    }

    /// Well-formedness: distinct keys, positive entries, and per-class counts
    /// summing exactly to the total.
    pub open spec fn wf(self) -> bool {
        &&& pair_keys_distinct(self.pairs())
        &&& self.spec_total() as nat == pair_sum(self.pairs())
        &&& forall|i: int| 0 <= i < self.pairs().len() ==> (#[trigger] self.pairs()[i]).1 >= 1
    }

    /// An empty record: total 0, no per-class entries.
    pub fn new() -> (c: Counts)
        ensures
            c.wf(),
            c.spec_total() == 0,
            c.pairs() == Seq::<(u64, u64)>::empty(),
    {
        Counts { total: 0, per_class: Vec::new() }
    }

    /// The occurrence count recorded under class `c`, 0 when absent.
    pub fn get(&self, c: u64) -> (r: u64)
        requires
            self.wf(),
        ensures
            r as nat == self.count_for(c),
            (r > 0) == pair_has_key(self.pairs(), c),
    {
        let n = self.per_class.len();
        let mut i: usize = 0;
        while i < n
            invariant
                n == self.pairs().len(),
                i <= n,
                self.wf(),
                forall|j: int| 0 <= j < i ==> (#[trigger] self.pairs()[j]).0 != c,
            decreases n - i,
        {
            let p = self.per_class[i];
            if p.0 == c {
                proof {
                    lemma_pair_value_at_index(self.pairs(), i as int, c);
                }
                return p.1;
            }
            i += 1;
        }
        proof {
            lemma_pair_value_absent(self.pairs(), c);
        }
        0
    }

    /// Record one more occurrence under class `c`, creating its entry at 1
    /// when absent.
    #[verifier::loop_isolation(false)]
    fn bump(&mut self, c: u64)
        requires
            old(self).wf(),
            old(self).spec_total() < u64::MAX,
        ensures
            final(self).wf(),
            final(self).spec_total() == old(self).spec_total() + 1,
            final(self).count_for(c) == old(self).count_for(c) + 1,
            forall|k: u64| k != c ==> #[trigger] final(self).count_for(k) == old(self).count_for(k),
            forall|k: u64|
                #[trigger] pair_has_key(final(self).pairs(), k) <==> (pair_has_key(
                    old(self).pairs(),
                    k,
                ) || k == c),
    {
        let n = self.per_class.len();
        let mut i: usize = 0;
        while i < n
            invariant
                n == self.pairs().len(),
                i <= n,
                self.wf(),
                *self == *old(self),
                forall|j: int| 0 <= j < i ==> (#[trigger] self.pairs()[j]).0 != c,
            decreases n - i,
        {
            let p = self.per_class[i];
            if p.0 == c {
                proof {
                    lemma_pair_value_at_index(self.pairs(), i as int, c);
                    lemma_pair_value_le_sum(self.pairs(), c);
                }
                let v: u64 = p.1 + 1;
                self.per_class[i] = (c, v);
                self.total = self.total + 1;
                proof {
                    assert(self.pairs() =~= old(self).pairs().update(i as int, (c, v)));
                    lemma_pair_update(old(self).pairs(), i as int, v);
                }
                return ;
            }
            i += 1;
        }
        proof {
            lemma_pair_value_absent(self.pairs(), c);
            lemma_pair_push(self.pairs(), (c, 1));
        }
        self.per_class.push((c, 1));
        self.total = self.total + 1;
    }
}

/// At an index holding key `k` (keys distinct), the recorded value is the
/// value at that index, and the key is present.
proof fn lemma_pair_value_at_index(s: Seq<(u64, u64)>, i: int, k: u64)
    requires
        pair_keys_distinct(s),
        0 <= i < s.len(),
        s[i].0 == k,
    ensures
        pair_has_key(s, k),
        pair_value(s, k) == s[i].1,
    decreases s.len(),
{
    if i == 0 {
    } else {
        assert(s[0].0 != k);
        assert(pair_keys_distinct(s.drop_first())) by {
            assert(forall|x: int, y: int|
                0 <= x < y < s.drop_first().len() ==> s.drop_first()[x].0 != s.drop_first()[y].0);
        }
        lemma_pair_value_at_index(s.drop_first(), i - 1, k);
    }
}

/// A key matching no index of `s` is absent and reads as 0.
proof fn lemma_pair_value_absent(s: Seq<(u64, u64)>, k: u64)
    requires
        forall|j: int| 0 <= j < s.len() ==> (#[trigger] s[j]).0 != k,
    ensures
        !pair_has_key(s, k),
        pair_value(s, k) == 0,
    decreases s.len(),
{
    if s.len() > 0 {
        assert(forall|j: int|
            0 <= j < s.drop_first().len() ==> (#[trigger] s.drop_first()[j]).0 != k);
        lemma_pair_value_absent(s.drop_first(), k);
    }
}

/// Any recorded value is bounded by the sum of all values.
proof fn lemma_pair_value_le_sum(s: Seq<(u64, u64)>, k: u64)
    ensures
        pair_value(s, k) <= pair_sum(s),
    decreases s.len(),
{
    if s.len() > 0 {
        lemma_pair_value_le_sum(s.drop_first(), k);
    }
}

/// A present key (all values positive) reads as at least 1.
proof fn lemma_pair_value_pos(s: Seq<(u64, u64)>, k: u64)
    requires
        pair_has_key(s, k),
        forall|i: int| 0 <= i < s.len() ==> (#[trigger] s[i]).1 >= 1,
    ensures
        pair_value(s, k) >= 1,
    decreases s.len(),
{
    if s.len() > 0 && s[0].0 != k {
        assert(forall|i: int|
            0 <= i < s.drop_first().len() ==> (#[trigger] s.drop_first()[i]).1 >= 1);
        lemma_pair_value_pos(s.drop_first(), k);
    }
}

/// Replacing the value at index `i` (keys distinct) adjusts the sum by the
/// difference, rewrites the value under that key, and leaves every other key's
/// value and presence unchanged.
proof fn lemma_pair_update(s: Seq<(u64, u64)>, i: int, v: u64)
    requires
        pair_keys_distinct(s),
        0 <= i < s.len(),
    ensures
        pair_sum(s.update(i, (s[i].0, v))) == pair_sum(s) - s[i].1 + v,
        pair_value(s.update(i, (s[i].0, v)), s[i].0) == v,
        forall|k: u64|
            k != s[i].0 ==> #[trigger] pair_value(s.update(i, (s[i].0, v)), k) == pair_value(s, k),
        forall|k: u64|
            #[trigger] pair_has_key(s.update(i, (s[i].0, v)), k) == pair_has_key(s, k),
    decreases s.len(),
{
    let t = s.update(i, (s[i].0, v));
    if i == 0 {
        assert(t.drop_first() =~= s.drop_first());
        assert forall|k: u64| k != s[i].0 implies #[trigger] pair_value(t, k) == pair_value(s, k) by {
            assert(pair_value(t, k) == pair_value(t.drop_first(), k));
            assert(pair_value(s, k) == pair_value(s.drop_first(), k));
        }
        assert forall|k: u64| #[trigger] pair_has_key(t, k) == pair_has_key(s, k) by {
            if k != s[i].0 {
                assert(pair_has_key(t, k) == pair_has_key(t.drop_first(), k));
                assert(pair_has_key(s, k) == pair_has_key(s.drop_first(), k));
            }
        }
    } else {
        assert(pair_keys_distinct(s.drop_first())) by {
            assert(forall|x: int, y: int|
                0 <= x < y < s.drop_first().len() ==> s.drop_first()[x].0 != s.drop_first()[y].0);
        }
        lemma_pair_update(s.drop_first(), i - 1, v);
        let u = s.drop_first().update(i - 1, (s[i].0, v));
        assert(t.drop_first() =~= u);
        assert(t[0] == s[0]);
        assert(pair_sum(t) == t[0].1 + pair_sum(u));
        assert(pair_value(t, s[i].0) == v) by {
            assert(t[0].0 != s[i].0);
            assert(pair_value(t, s[i].0) == pair_value(u, s[i].0));
        }
        assert forall|k: u64| k != s[i].0 implies #[trigger] pair_value(t, k) == pair_value(s, k) by {
            assert(pair_value(t, k) == if t[0].0 == k {
                t[0].1 as nat
            } else {
                pair_value(u, k)
            });
            assert(pair_value(s, k) == if s[0].0 == k {
                s[0].1 as nat
            } else {
                pair_value(s.drop_first(), k)
            });
        }
        assert forall|k: u64| #[trigger] pair_has_key(t, k) == pair_has_key(s, k) by {
            assert(pair_has_key(t, k) == (t[0].0 == k || pair_has_key(u, k)));
            assert(pair_has_key(s, k) == (s[0].0 == k || pair_has_key(s.drop_first(), k)));
        }
    }
}

/// Appending a fresh entry adds its value to the sum, makes its key present
/// with exactly that value when the key was absent, and leaves every other
/// key's value and presence unchanged.
proof fn lemma_pair_push(s: Seq<(u64, u64)>, p: (u64, u64))
    ensures
        pair_sum(s.push(p)) == pair_sum(s) + p.1,
        !pair_has_key(s, p.0) ==> pair_value(s.push(p), p.0) == p.1,
        forall|k: u64| k != p.0 ==> #[trigger] pair_value(s.push(p), k) == pair_value(s, k),
        forall|k: u64|
            #[trigger] pair_has_key(s.push(p), k) <==> (pair_has_key(s, k) || k == p.0),
    decreases s.len(),
{
    let t = s.push(p);
    if s.len() == 0 {
        assert(t[0] == p);
        assert(t.drop_first() =~= Seq::<(u64, u64)>::empty());
        assert(pair_sum(t) == t[0].1 + pair_sum(t.drop_first()));
        assert(pair_value(t, p.0) == p.1);
        assert forall|k: u64| k != p.0 implies #[trigger] pair_value(t, k) == pair_value(s, k) by {
            assert(pair_value(t, k) == pair_value(t.drop_first(), k));
        }
        assert forall|k: u64| #[trigger] pair_has_key(t, k) <==> (pair_has_key(s, k) || k
            == p.0) by {
            assert(pair_has_key(t, k) == (t[0].0 == k || pair_has_key(t.drop_first(), k)));
        }
    } else {
        lemma_pair_push(s.drop_first(), p);
        let u = s.drop_first().push(p);
        assert(t.drop_first() =~= u);
        assert(t[0] == s[0]);
        assert(pair_sum(t) == t[0].1 + pair_sum(u));
        if !pair_has_key(s, p.0) {
            assert(s[0].0 != p.0);
            assert(pair_value(t, p.0) == pair_value(u, p.0));
        }
        assert forall|k: u64| k != p.0 implies #[trigger] pair_value(t, k) == pair_value(s, k) by {
            assert(pair_value(t, k) == if t[0].0 == k {
                t[0].1 as nat
            } else {
                pair_value(u, k)
            });
            assert(pair_value(s, k) == if s[0].0 == k {
                s[0].1 as nat
            } else {
                pair_value(s.drop_first(), k)
            });
        }
        assert forall|k: u64| #[trigger] pair_has_key(t, k) <==> (pair_has_key(s, k) || k
            == p.0) by {
            assert(pair_has_key(t, k) == (t[0].0 == k || pair_has_key(u, k)));
            assert(pair_has_key(s, k) == (s[0].0 == k || pair_has_key(s.drop_first(), k)));
        }
    }
}

/// The total training occurrences of token `t` recorded in the entry list
/// `s`, or 0 when `t` was never trained.
pub open spec fn tok_total(s: Seq<(String, Counts)>, t: Seq<char>) -> nat
    decreases s.len(),
{
    if s.len() == 0 {
        0
    } else if s[0].0@ == t {
        s[0].1.spec_total() as nat
    } else {
        tok_total(s.drop_first(), t)
    }
}

/// The training occurrences of token `t` under class `c` recorded in `s`.
pub open spec fn tok_count(s: Seq<(String, Counts)>, t: Seq<char>, c: u64) -> nat
    decreases s.len(),
{
    if s.len() == 0 {
        0
    } else if s[0].0@ == t {
        s[0].1.count_for(c)
    } else {
        tok_count(s.drop_first(), t, c)
    }
}

/// The sum of the per-token totals over all entries of `s`.
pub open spec fn tok_sum(s: Seq<(String, Counts)>) -> nat
    decreases s.len(),
{
    if s.len() == 0 {
        0
    } else {
        (s[0].1.spec_total() + tok_sum(s.drop_first())) as nat
    }
}

/// No two entries of `s` are keyed by the same token.
pub open spec fn tok_keys_distinct(s: Seq<(String, Counts)>) -> bool {
    forall|i: int, j: int| 0 <= i < j < s.len() ==> s[i].0@ != s[j].0@
}

/// At an index keyed by `t` (keys distinct), the recorded statistics are
/// those of the entry at that index.
proof fn lemma_tok_at_index(s: Seq<(String, Counts)>, i: int, t: Seq<char>)
    requires
        tok_keys_distinct(s),
        0 <= i < s.len(),
        s[i].0@ == t,
    ensures
        tok_total(s, t) == s[i].1.spec_total(),
        forall|c: u64| #[trigger] tok_count(s, t, c) == s[i].1.count_for(c),
    decreases s.len(),
{
    if i == 0 {
        assert forall|c: u64| #[trigger] tok_count(s, t, c) == s[i].1.count_for(c) by {
            assert(tok_count(s, t, c) == s[0].1.count_for(c));
        }
    } else {
        assert(s[0].0@ != t);
        assert(tok_keys_distinct(s.drop_first())) by {
            assert(forall|x: int, y: int|
                0 <= x < y < s.drop_first().len() ==> s.drop_first()[x].0@
                    != s.drop_first()[y].0@);
        }
        lemma_tok_at_index(s.drop_first(), i - 1, t);
        assert forall|c: u64| #[trigger] tok_count(s, t, c) == s[i].1.count_for(c) by {
            assert(tok_count(s, t, c) == tok_count(s.drop_first(), t, c));
        }
    }
}

/// A token matching no entry of `s` has no recorded statistics.
proof fn lemma_tok_absent(s: Seq<(String, Counts)>, t: Seq<char>)
    requires
        forall|j: int| 0 <= j < s.len() ==> (#[trigger] s[j]).0@ != t,
    ensures
        tok_total(s, t) == 0,
        forall|c: u64| #[trigger] tok_count(s, t, c) == 0,
    decreases s.len(),
{
    if s.len() > 0 {
        assert(forall|j: int|
            0 <= j < s.drop_first().len() ==> (#[trigger] s.drop_first()[j]).0@ != t);
        lemma_tok_absent(s.drop_first(), t);
        assert(s[0].0@ != t);
        assert forall|c: u64| #[trigger] tok_count(s, t, c) == 0 by {
            assert(tok_count(s, t, c) == tok_count(s.drop_first(), t, c));
        }
    } else {
        assert forall|c: u64| #[trigger] tok_count(s, t, c) == 0 by {
            assert(tok_count(s, t, c) == 0);
        }
    }
}

/// Any entry's total is bounded by the sum of all entries' totals.
proof fn lemma_tok_entry_le_sum(s: Seq<(String, Counts)>, i: int)
    requires
        0 <= i < s.len(),
    ensures
        s[i].1.spec_total() <= tok_sum(s),
    decreases s.len(),
{
    if i > 0 {
        lemma_tok_entry_le_sum(s.drop_first(), i - 1);
    }
}

/// When every entry is well formed, a token's per-class count never exceeds
/// its total.
proof fn lemma_tok_count_le_total(s: Seq<(String, Counts)>, t: Seq<char>, c: u64)
    requires
        forall|i: int| 0 <= i < s.len() ==> (#[trigger] s[i]).1.wf(),
    ensures
        tok_count(s, t, c) <= tok_total(s, t),
    decreases s.len(),
{
    if s.len() > 0 {
        if s[0].0@ == t {
            lemma_pair_value_le_sum(s[0].1.pairs(), c);
        } else {
            assert(forall|i: int|
                0 <= i < s.drop_first().len() ==> (#[trigger] s.drop_first()[i]).1.wf());
            lemma_tok_count_le_total(s.drop_first(), t, c);
        }
    }
}

/// Replacing the record at index `i` (keys distinct, key kept) adjusts the
/// sum by the difference and rewrites exactly that token's statistics.
proof fn lemma_tok_update(s: Seq<(String, Counts)>, i: int, nc: Counts)
    requires
        tok_keys_distinct(s),
        0 <= i < s.len(),
    ensures
        tok_keys_distinct(s.update(i, (s[i].0, nc))),
        tok_sum(s.update(i, (s[i].0, nc))) == tok_sum(s) - s[i].1.spec_total()
            + nc.spec_total(),
        tok_total(s.update(i, (s[i].0, nc)), s[i].0@) == nc.spec_total(),
        forall|c: u64|
            #[trigger] tok_count(s.update(i, (s[i].0, nc)), s[i].0@, c) == nc.count_for(c),
        forall|u: Seq<char>|
            u != s[i].0@ ==> #[trigger] tok_total(s.update(i, (s[i].0, nc)), u) == tok_total(
                s,
                u,
            ),
        forall|u: Seq<char>, c: u64|
            u != s[i].0@ ==> #[trigger] tok_count(s.update(i, (s[i].0, nc)), u, c) == tok_count(
                s,
                u,
                c,
            ),
    decreases s.len(),
{
    let t = s.update(i, (s[i].0, nc));
    assert forall|x: int, y: int| 0 <= x < y < t.len() implies t[x].0@ != t[y].0@ by {
        assert(t[x].0 == s[x].0 && t[y].0 == s[y].0);
    }
    if i == 0 {
        assert(t.drop_first() =~= s.drop_first());
        assert forall|u: Seq<char>| u != s[i].0@ implies #[trigger] tok_total(t, u) == tok_total(
            s,
            u,
        ) by {
            assert(tok_total(t, u) == tok_total(t.drop_first(), u));
            assert(tok_total(s, u) == tok_total(s.drop_first(), u));
        }
        assert forall|u: Seq<char>, c: u64| u != s[i].0@ implies #[trigger] tok_count(t, u, c)
            == tok_count(s, u, c) by {
            assert(tok_count(t, u, c) == tok_count(t.drop_first(), u, c));
            assert(tok_count(s, u, c) == tok_count(s.drop_first(), u, c));
        }
    } else {
        assert(tok_keys_distinct(s.drop_first())) by {
            assert(forall|x: int, y: int|
                0 <= x < y < s.drop_first().len() ==> s.drop_first()[x].0@
                    != s.drop_first()[y].0@);
        }
        lemma_tok_update(s.drop_first(), i - 1, nc);
        let u0 = s.drop_first().update(i - 1, (s[i].0, nc));
        assert(t.drop_first() =~= u0);
        assert(t[0] == s[0]);
        assert(tok_sum(t) == t[0].1.spec_total() + tok_sum(u0));
        assert(t[0].0@ != s[i].0@);
        assert(tok_total(t, s[i].0@) == tok_total(u0, s[i].0@));
        assert forall|c: u64| #[trigger] tok_count(t, s[i].0@, c) == nc.count_for(c) by {
            assert(tok_count(t, s[i].0@, c) == tok_count(u0, s[i].0@, c));
        }
        assert forall|u: Seq<char>| u != s[i].0@ implies #[trigger] tok_total(t, u) == tok_total(
            s,
            u,
        ) by {
            assert(tok_total(t, u) == if t[0].0@ == u {
                t[0].1.spec_total() as nat
            } else {
                tok_total(u0, u)
            });
            assert(tok_total(s, u) == if s[0].0@ == u {
                s[0].1.spec_total() as nat
            } else {
                tok_total(s.drop_first(), u)
            });
        }
        assert forall|u: Seq<char>, c: u64| u != s[i].0@ implies #[trigger] tok_count(t, u, c)
            == tok_count(s, u, c) by {
            assert(tok_count(t, u, c) == if t[0].0@ == u {
                t[0].1.count_for(c)
            } else {
                tok_count(u0, u, c)
            });
            assert(tok_count(s, u, c) == if s[0].0@ == u {
                s[0].1.count_for(c)
            } else {
                tok_count(s.drop_first(), u, c)
            });
        }
    }
}

/// Appending an entry for a fresh token adds its total to the sum, installs
/// exactly its statistics under that token, and changes no other token.
proof fn lemma_tok_push(s: Seq<(String, Counts)>, p: (String, Counts))
    requires
        forall|j: int| 0 <= j < s.len() ==> (#[trigger] s[j]).0@ != p.0@,
    ensures
        tok_sum(s.push(p)) == tok_sum(s) + p.1.spec_total(),
        tok_total(s.push(p), p.0@) == p.1.spec_total(),
        forall|c: u64| #[trigger] tok_count(s.push(p), p.0@, c) == p.1.count_for(c),
        forall|u: Seq<char>|
            u != p.0@ ==> #[trigger] tok_total(s.push(p), u) == tok_total(s, u),
        forall|u: Seq<char>, c: u64|
            u != p.0@ ==> #[trigger] tok_count(s.push(p), u, c) == tok_count(s, u, c),
    decreases s.len(),
{
    let t = s.push(p);
    if s.len() == 0 {
        assert(t[0] == p);
        assert(t.drop_first() =~= Seq::<(String, Counts)>::empty());
        assert(tok_sum(t) == t[0].1.spec_total() + tok_sum(t.drop_first()));
        assert forall|u: Seq<char>| u != p.0@ implies #[trigger] tok_total(t, u) == tok_total(
            s,
            u,
        ) by {
            assert(tok_total(t, u) == tok_total(t.drop_first(), u));
        }
        assert forall|u: Seq<char>, c: u64| u != p.0@ implies #[trigger] tok_count(t, u, c)
            == tok_count(s, u, c) by {
            assert(tok_count(t, u, c) == tok_count(t.drop_first(), u, c));
        }
    } else {
        assert(forall|j: int|
            0 <= j < s.drop_first().len() ==> (#[trigger] s.drop_first()[j]).0@ != p.0@);
        lemma_tok_push(s.drop_first(), p);
        let u0 = s.drop_first().push(p);
        assert(t.drop_first() =~= u0);
        assert(t[0] == s[0]);
        assert(tok_sum(t) == t[0].1.spec_total() + tok_sum(u0));
        assert(s[0].0@ != p.0@);
        assert(tok_total(t, p.0@) == tok_total(u0, p.0@));
        assert forall|c: u64| #[trigger] tok_count(t, p.0@, c) == p.1.count_for(c) by {
            assert(tok_count(t, p.0@, c) == tok_count(u0, p.0@, c));
        }
        assert forall|u: Seq<char>| u != p.0@ implies #[trigger] tok_total(t, u) == tok_total(
            s,
            u,
        ) by {
            assert(tok_total(t, u) == if t[0].0@ == u {
                t[0].1.spec_total() as nat
            } else {
                tok_total(u0, u)
            });
            assert(tok_total(s, u) == if s[0].0@ == u {
                s[0].1.spec_total() as nat
            } else {
                tok_total(s.drop_first(), u)
            });
        }
        assert forall|u: Seq<char>, c: u64| u != p.0@ implies #[trigger] tok_count(t, u, c)
            == tok_count(s, u, c) by {
            assert(tok_count(t, u, c) == if t[0].0@ == u {
                t[0].1.count_for(c)
            } else {
                tok_count(u0, u, c)
            });
            assert(tok_count(s, u, c) == if s[0].0@ == u {
                s[0].1.count_for(c)
            } else {
                tok_count(s.drop_first(), u, c)
            });
        }
    }
}

/// How many elements of `toks` equal `t`.
pub open spec fn occ(toks: Seq<Seq<char>>, t: Seq<char>) -> nat
    decreases toks.len(),
{
    if toks.len() == 0 {
        0
    } else {
        (occ(toks.drop_last(), t) + if toks.last() == t {
            1nat
        } else {
            0nat
        }) as nat
    }
}

/// A multinomial naive Bayes model: a registry of known classes in first-seen
/// order, global per-class totals, and per-token per-class occurrence counts.
pub struct NaiveBayesClassifier {
    /// The known-classes registry: each class that has appeared in at least
    /// one (non-empty) training call, exactly once, in first-seen order.
    pub classes: Vec<u64>,
    class_counts: Counts,
    datum_counts: Vec<(String, Counts)>,
}

impl NaiveBayesClassifier {
    /// The global statistics record (totals per class).
    pub closed spec fn class_stats(self) -> Counts {
        self.class_counts
    }

    /// The per-token statistics entries, in first-seen order.
    pub closed spec fn tok_entries(self) -> Seq<(String, Counts)> {
        self.datum_counts@
    }

    /// The known-classes registry, as a sequence: the view of the public
    /// `classes` field.
    pub closed spec fn registry(self) -> Seq<u64> {
        self.classes@
    }

    /// Total training-token occurrences across all classes.
    pub open spec fn global_total(self) -> nat {
        self.class_stats().spec_total() as nat
    }

    /// Total training-token occurrences under class `c`.
    pub open spec fn class_total(self, c: u64) -> nat {
        self.class_stats().count_for(c)
    }

    /// Total training occurrences of token `t` across all classes.
    pub open spec fn token_total(self, t: Seq<char>) -> nat {
        tok_total(self.tok_entries(), t)
    }

    /// Training occurrences of token `t` under class `c`.
    pub open spec fn token_count(self, t: Seq<char>, c: u64) -> nat {
        tok_count(self.tok_entries(), t, c)
    }

    /// Was token `t` seen in any training call?
    pub open spec fn token_seen(self, t: Seq<char>) -> bool {
        self.token_total(t) > 0
    }

    /// Well-formedness of the whole model: both statistics layers are well
    /// formed, the registry is duplicate-free and agrees with the classes
    /// recorded in the global statistics, and the global total equals the sum
    /// of all per-token totals.
    pub open spec fn wf(self) -> bool {
        &&& self.class_stats().wf()
        &&& forall|i: int, j: int|
            0 <= i < j < self.registry().len() ==> self.registry()[i] != self.registry()[j]
        &&& forall|c: u64|
            #[trigger] self.registry().contains(c) <==> pair_has_key(
                self.class_stats().pairs(),
                c,
            )
        &&& tok_keys_distinct(self.tok_entries())
        &&& forall|i: int|
            0 <= i < self.tok_entries().len() ==> (#[trigger] self.tok_entries()[i]).1.wf()
                && self.tok_entries()[i].1.spec_total() >= 1
        &&& self.global_total() == tok_sum(self.tok_entries())
    }

    /// An empty classifier: no classes, no statistics.
    pub fn new() -> (r: NaiveBayesClassifier)
        ensures
            r.wf(),
            r.registry() == Seq::<u64>::empty(),
            r.global_total() == 0,
            forall|c: u64| #[trigger] r.class_total(c) == 0,
            forall|t: Seq<char>| #[trigger] r.token_total(t) == 0,
            forall|t: Seq<char>, c: u64| #[trigger] r.token_count(t, c) == 0,
    {
        let r = NaiveBayesClassifier {
            classes: Vec::new(),
            class_counts: Counts::new(),
            datum_counts: Vec::new(),
        };
        proof {
            assert forall|t: Seq<char>| #[trigger] r.token_total(t) == 0 by {
                lemma_tok_absent(r.tok_entries(), t);
            }
            assert forall|t: Seq<char>, c: u64| #[trigger] r.token_count(t, c) == 0 by {
                lemma_tok_absent(r.tok_entries(), t);
            }
        }
        r
    }

    /// How many training-token occurrences have been counted in all, over
    /// every class. Callers can check it against `u64::MAX` before training
    /// more.
    pub fn total_trained(&self) -> (r: u64)
        ensures
            r as nat == self.global_total(),
    {
        self.class_counts.total
    }

    /// Is `class` already in the known-classes registry?
    #[verifier::loop_isolation(false)]
    fn contains_class(&self, class: u64) -> (r: bool)
        ensures
            r == self.registry().contains(class),
    {
        let n = self.classes.len();
        let mut i: usize = 0;
        while i < n
            invariant
                i <= n,
                forall|j: int| 0 <= j < i ==> self.registry()[j] != class,
            decreases n - i,
        {
            if self.classes[i] == class {
                return true;
            }
            i += 1;
        }
        false
    }

    /// The index of the statistics entry for token `tok`, if one exists.
    #[verifier::loop_isolation(false)]
    fn token_index(&self, tok: &String) -> (r: Option<usize>)
        requires
            self.wf(),
        ensures
            match r {
                Some(i) => i < self.tok_entries().len() && self.tok_entries()[i as int].0@
                    == tok@,
                None => !self.token_seen(tok@) && forall|j: int|
                    0 <= j < self.tok_entries().len() ==> (#[trigger] self.tok_entries()[j]).0@
                        != tok@,
            },
    {
        let n = self.datum_counts.len();
        let mut i: usize = 0;
        while i < n
            invariant
                i <= n,
                forall|j: int| 0 <= j < i ==> (#[trigger] self.tok_entries()[j]).0@ != tok@,
            decreases n - i,
        {
            if self.datum_counts[i].0 == *tok {
                return Some(i);
            }
            i += 1;
        }
        proof {
            lemma_tok_absent(self.tok_entries(), tok@);
        }
        None
    }

    /// Record one training occurrence of `tok` under `class`: bump the
    /// token's total and per-class count, the global total and per-class
    /// total, and register `class` if it is new.
    fn add_token(&mut self, class: u64, tok: String)
        requires
            old(self).wf(),
            old(self).global_total() < u64::MAX,
        ensures
            final(self).wf(),
            final(self).global_total() == old(self).global_total() + 1,
            final(self).class_total(class) == old(self).class_total(class) + 1,
            forall|k: u64|
                k != class ==> #[trigger] final(self).class_total(k) == old(self).class_total(k),
            final(self).token_total(tok@) == old(self).token_total(tok@) + 1,
            forall|u: Seq<char>|
                u != tok@ ==> #[trigger] final(self).token_total(u) == old(self).token_total(u),
            final(self).token_count(tok@, class) == old(self).token_count(tok@, class) + 1,
            forall|u: Seq<char>, k: u64|
                !(u == tok@ && k == class) ==> #[trigger] final(self).token_count(u, k) == old(
                    self,
                ).token_count(u, k),
            final(self).registry() == if old(self).registry().contains(class) {
                old(self).registry()
            } else {
                old(self).registry().push(class)
            },
    {
        let ghost entries0 = self.tok_entries();
        match self.token_index(&tok) {
            Some(i) => {
                proof {
                    lemma_tok_at_index(entries0, i as int, tok@);
                    lemma_tok_entry_le_sum(entries0, i as int);
                }
                let mut entry = self.datum_counts.remove(i);
                entry.1.bump(class);
                self.datum_counts.insert(i, entry);
                proof {
                    assert(self.tok_entries() =~= entries0.update(
                        i as int,
                        (entries0[i as int].0, entry.1),
                    ));
                    lemma_tok_update(entries0, i as int, entry.1);
                    assert(entries0[i as int].0@ == tok@);
                    assert(self.token_total(tok@) == entry.1.spec_total());
                    assert(self.token_count(tok@, class) == entry.1.count_for(class));
                    assert forall|k: u64| k != class implies #[trigger] tok_count(
                        self.tok_entries(),
                        tok@,
                        k,
                    ) == tok_count(entries0, tok@, k) by {
                        assert(tok_count(self.tok_entries(), tok@, k) == entry.1.count_for(k));
                        assert(tok_count(entries0, tok@, k) == entries0[i as int].1.count_for(
                            k,
                        ));
                    }
                }
            },
            None => {
                proof {
                    lemma_tok_absent(entries0, tok@);
                }
                let mut fresh = Counts::new();
                fresh.bump(class);
                let ghost pushed: (String, Counts) = (tok, fresh);
                self.datum_counts.push((tok, fresh));
                proof {
                    assert(self.tok_entries() == entries0.push(pushed));
                    lemma_tok_push(entries0, pushed);
                    assert(self.token_total(tok@) == fresh.spec_total());
                    assert(self.token_count(tok@, class) == fresh.count_for(class));
                    assert forall|k: u64| k != class implies #[trigger] tok_count(
                        self.tok_entries(),
                        tok@,
                        k,
                    ) == tok_count(entries0, tok@, k) by {
                        assert(tok_count(self.tok_entries(), tok@, k) == fresh.count_for(k));
                    }
                }
            },
        }
        self.class_counts.bump(class);
        let ghost reg0 = self.registry();
        if !self.contains_class(class) {
            self.classes.push(class);
            proof {
                assert(self.registry() == reg0.push(class));
                assert(self.registry()[reg0.len() as int] == class);
            }
        }
        proof {
            assert(reg0 == old(self).registry());
            assert forall|k: u64| #[trigger] self.registry().contains(k) <==> (reg0.contains(k)
                || k == class) by {
                if reg0.contains(class) {
                    assert(self.registry() == reg0);
                } else {
                    let r1 = self.registry();
                    if r1.contains(k) {
                        let idx = choose|idx: int| 0 <= idx < r1.len() && r1[idx] == k;
                        if idx < reg0.len() {
                            assert(reg0[idx] == k);
                            assert(reg0.contains(k));
                        } else {
                            assert(k == class);
                        }
                    }
                    if reg0.contains(k) {
                        let idx = choose|idx: int| 0 <= idx < reg0.len() && reg0[idx] == k;
                        assert(r1[idx] == k);
                        assert(r1.contains(k));
                    }
                    if k == class {
                        assert(r1[reg0.len() as int] == class);
                        assert(r1.contains(class));
                    }
                }
            }
            assert forall|i: int, j: int|
                0 <= i < j < self.registry().len() implies self.registry()[i]
                != self.registry()[j] by {
                if j >= reg0.len() {
                    assert(!reg0.contains(class));
                    assert(self.registry()[i] == reg0[i]);
                    assert(reg0[i] != class) by {
                        if reg0[i] == class {
                            assert(reg0.contains(class));
                        }
                    }
                }
            }
        }
    }

    /// Teach the classifier: count every token of `data` once under `class`,
    /// and register `class` on the first token. Training with a document that
    /// tokenizes to nothing changes nothing at all.
    #[verifier::loop_isolation(false)]
    pub fn train<U: Tokenize>(&mut self, class: u64, data: U)
        requires
            old(self).wf(),
            old(self).global_total() + data.spec_tokens().len() <= u64::MAX,
        ensures
            final(self).wf(),
            final(self).global_total() == old(self).global_total() + data.spec_tokens().len(),
            final(self).class_total(class) == old(self).class_total(class)
                + data.spec_tokens().len(),
            forall|k: u64|
                k != class ==> #[trigger] final(self).class_total(k) == old(self).class_total(k),
            forall|t: Seq<char>|
                #[trigger] final(self).token_total(t) == old(self).token_total(t) + occ(
                    data.spec_tokens(),
                    t,
                ),
            forall|t: Seq<char>|
                #[trigger] final(self).token_count(t, class) == old(self).token_count(t, class)
                    + occ(data.spec_tokens(), t),
            forall|t: Seq<char>, k: u64|
                k != class ==> #[trigger] final(self).token_count(t, k) == old(self).token_count(
                    t,
                    k,
                ),
            final(self).registry() == if data.spec_tokens().len() == 0 || old(
                self,
            ).registry().contains(class) {
                old(self).registry()
            } else {
                old(self).registry().push(class)
            },
            data.spec_tokens().len() == 0 ==> *final(self) == *old(self),
    {
        let toks = data.tokenize();
        let ghost ts = data.spec_tokens();
        let n = toks.len();
        let mut i: usize = 0;
        while i < n
            invariant
                n == ts.len(),
                i <= n,
                forall|j: int| 0 <= j < n ==> #[trigger] toks@[j]@ == ts[j],
                self.wf(),
                self.global_total() == old(self).global_total() + i,
                self.class_total(class) == old(self).class_total(class) + i,
                forall|k: u64|
                    k != class ==> #[trigger] self.class_total(k) == old(self).class_total(k),
                forall|t: Seq<char>|
                    #[trigger] self.token_total(t) == old(self).token_total(t) + occ(
                        ts.take(i as int),
                        t,
                    ),
                forall|t: Seq<char>|
                    #[trigger] self.token_count(t, class) == old(self).token_count(t, class)
                        + occ(ts.take(i as int), t),
                forall|t: Seq<char>, k: u64|
                    k != class ==> #[trigger] self.token_count(t, k) == old(self).token_count(
                        t,
                        k,
                    ),
                self.registry() == if i == 0 || old(self).registry().contains(class) {
                    old(self).registry()
                } else {
                    old(self).registry().push(class)
                },
                i > 0 ==> self.registry().contains(class),
                i == 0 ==> *self == *old(self),
            decreases n - i,
        {
            let tok = toks[i].clone();
            proof {
                assert(occ(ts.take(i as int), tok@) <= i) by {
                    lemma_occ_le_len(ts.take(i as int), tok@);
                }
            }
            let ghost pre = *self;
            self.add_token(class, tok);
            proof {
                assert(ts.take(i + 1).drop_last() =~= ts.take(i as int));
                assert(ts.take(i + 1).last() == ts[i as int]);
                assert forall|t: Seq<char>| #[trigger] self.token_total(t) == old(
                    self,
                ).token_total(t) + occ(ts.take(i + 1), t) by {
                    assert(occ(ts.take(i + 1), t) == occ(ts.take(i as int), t) + if ts[i as int]
                        == t {
                        1nat
                    } else {
                        0nat
                    });
                }
                assert forall|t: Seq<char>| #[trigger] self.token_count(t, class) == old(
                    self,
                ).token_count(t, class) + occ(ts.take(i + 1), t) by {
                    assert(occ(ts.take(i + 1), t) == occ(ts.take(i as int), t) + if ts[i as int]
                        == t {
                        1nat
                    } else {
                        0nat
                    });
                }
                if !pre.registry().contains(class) {
                    assert(self.registry() == pre.registry().push(class));
                    assert(self.registry()[pre.registry().len() as int] == class);
                    assert(self.registry().contains(class));
                } else {
                    assert(self.registry() == pre.registry());
                }
            }
            i += 1;
        }
        proof {
            assert(ts.take(n as int) =~= ts);
        }
    }
}

/// An exact relative score: the non-negative rational `num / den`.
///
/// Scores are unnormalized products of per-token likelihoods and a class
/// prior; they are comparable only among classes of one `analyze` call. A
/// product whose exact denominator no longer fits in `u128` has underflowed:
/// it is reported as the zero score `0 / 1`, mirroring how repeated
/// multiplication of many small probabilities decays to nothing for long
/// documents. An exact (non-underflowed) score always has `num >= 1`.
#[derive(Clone, Copy, Debug, PartialEq, Eq, Structural)]
pub struct Score {
    /// Numerator of the exact score.
    pub num: u128,
    /// Denominator of the exact score (at least 1).
    pub den: u128,
}

/// Does the returned score `s` report the exact rational `n / d`? It must,
/// verbatim, whenever `d` fits in `u128`; otherwise the score underflowed to
/// `0 / 1`.
pub open spec fn score_matches(s: Score, n: nat, d: nat) -> bool {
    if d <= u128::MAX {
        s.num == n && s.den == d
    } else {
        s.num == 0 && s.den == 1
    }
}

/// The views of a sequence of owned strings.
pub open spec fn views(ts: Seq<String>) -> Seq<Seq<char>> {
    ts.map_values(|s: String| s@)
}

impl NaiveBayesClassifier {
    /// Numerator of the likelihood factor a seen token `t` contributes to
    /// class `c`: the fallback 1/100 when `c` never co-occurred with `t`, the
    /// clamp 99/100 when `t` occurred only under `c`, else the exact ratio of
    /// the counts.
    pub open spec fn factor_num(self, t: Seq<char>, c: u64) -> nat {
        if self.token_count(t, c) == 0 {
            1
        } else if self.token_count(t, c) == self.token_total(t) {
            99
        } else {
            self.token_count(t, c)
        }
    }

    /// Denominator of the likelihood factor of token `t` for class `c`.
    pub open spec fn factor_den(self, t: Seq<char>, c: u64) -> nat {
        if self.token_count(t, c) == 0 {
            100
        } else if self.token_count(t, c) == self.token_total(t) {
            100
        } else {
            self.token_total(t)
        }
    }

    /// Numerator of the product of the factors of all seen tokens of a query
    /// document; tokens never seen in training are skipped entirely.
    pub open spec fn evidence_num(self, toks: Seq<Seq<char>>, c: u64) -> nat
        decreases toks.len(),
    {
        if toks.len() == 0 {
            1
        } else {
            (self.evidence_num(toks.drop_last(), c) * (if self.token_seen(toks.last()) {
                self.factor_num(toks.last(), c)
            } else {
                1
            })) as nat
        }
    }

    /// Denominator of the product of the factors of all seen tokens.
    pub open spec fn evidence_den(self, toks: Seq<Seq<char>>, c: u64) -> nat
        decreases toks.len(),
    {
        if toks.len() == 0 {
            1
        } else {
            (self.evidence_den(toks.drop_last(), c) * (if self.token_seen(toks.last()) {
                self.factor_den(toks.last(), c)
            } else {
                1
            })) as nat
        }
    }

    /// Numerator of the final score of class `c` for a query: the evidence
    /// product times the class prior `class_total(c) / global_total()`.
    pub open spec fn score_num(self, toks: Seq<Seq<char>>, c: u64) -> nat {
        (self.evidence_num(toks, c) * self.class_total(c)) as nat
    }

    /// Denominator of the final score of class `c` for a query.
    pub open spec fn score_den(self, toks: Seq<Seq<char>>, c: u64) -> nat {
        (self.evidence_den(toks, c) * self.global_total()) as nat
    }

    /// Was any token of the query seen in training?
    pub open spec fn any_seen(self, toks: Seq<Seq<char>>) -> bool
        decreases toks.len(),
    {
        toks.len() > 0 && (self.any_seen(toks.drop_last()) || self.token_seen(toks.last()))
    }

    /// Compute the exact score of class `c` for the query tokens `toks`.
    #[verifier::loop_isolation(false)]
    fn score_for(&self, c: u64, toks: &Vec<String>) -> (r: Score)
        requires
            self.wf(),
            self.registry().contains(c),
        ensures
            score_matches(r, self.score_num(views(toks@), c), self.score_den(views(toks@), c)),
    {
        let ghost ts = views(toks@);
        let mut num: u128 = 1;
        let mut den: u128 = 1;
        let mut ok: bool = true;
        let n = toks.len();
        let mut j: usize = 0;
        while j < n
            invariant
                j <= n,
                n == toks@.len(),
                ok ==> num as nat == self.evidence_num(ts.take(j as int), c),
                ok ==> den as nat == self.evidence_den(ts.take(j as int), c),
                ok ==> num <= den,
                ok ==> num >= 1,
                !ok ==> self.evidence_den(ts.take(j as int), c) > u128::MAX,
            decreases n - j,
        {
            proof {
                assert(ts.take(j + 1).drop_last() =~= ts.take(j as int));
                assert(ts.take(j + 1).last() == ts[j as int]);
                assert(ts[j as int] == toks@[j as int]@);
            }
            let ghost en0 = self.evidence_num(ts.take(j as int), c);
            let ghost ed0 = self.evidence_den(ts.take(j as int), c);
            match self.token_index(&toks[j]) {
                None => {
                    proof {
                        assert(!self.token_seen(ts[j as int]));
                        assert(self.evidence_num(ts.take(j + 1), c) == en0 * 1);
                        assert(self.evidence_den(ts.take(j + 1), c) == ed0 * 1);
                    }
                },
                Some(ti) => {
                    proof {
                        lemma_tok_at_index(self.tok_entries(), ti as int, ts[j as int]);
                    }
                    let tot: u64 = self.datum_counts[ti].1.total;
                    let cnt: u64 = self.datum_counts[ti].1.get(c);
                    proof {
                        assert(tot as nat == self.token_total(ts[j as int]));
                        assert(cnt as nat == self.token_count(ts[j as int], c));
                        assert(tot >= 1);
                        lemma_tok_count_le_total(self.tok_entries(), ts[j as int], c);
                    }
                    let (fnu, fde): (u64, u64) = if cnt == 0 {
                        (1, 100)
                    } else if cnt == tot {
                        (99, 100)
                    } else {
                        (cnt, tot)
                    };
                    proof {
                        assert(fnu as nat == self.factor_num(ts[j as int], c));
                        assert(fde as nat == self.factor_den(ts[j as int], c));
                        assert(1 <= fnu && fnu <= fde);
                        assert(self.evidence_num(ts.take(j + 1), c) == en0 * self.factor_num(
                            ts[j as int],
                            c,
                        ));
                        assert(self.evidence_den(ts.take(j + 1), c) == ed0 * self.factor_den(
                            ts[j as int],
                            c,
                        ));
                    }
                    if ok {
                        match den.checked_mul(fde as u128) {
                            Some(d2) => {
                                proof {
                                    assert(num * (fnu as u128) <= den * (fde as u128)) by (
                                    nonlinear_arith)
                                        requires
                                            num <= den,
                                            fnu <= fde,
                                            num >= 0,
                                            fnu >= 0,
                                    ;
                                    assert(num * (fnu as u128) >= 1) by (nonlinear_arith)
                                        requires
                                            num >= 1,
                                            fnu >= 1,
                                    ;
                                }
                                let n2 = num.checked_mul(fnu as u128).unwrap();
                                num = n2;
                                den = d2;
                            },
                            None => {
                                ok = false;
                            },
                        }
                    } else {
                        proof {
                            assert(ed0 * (fde as nat) >= ed0) by (nonlinear_arith)
                                requires
                                    fde >= 1,
                                    ed0 >= 0,
                            ;
                        }
                    }
                },
            }
            j += 1;
        }
        proof {
            assert(ts.take(n as int) =~= ts);
        }
        let prior_num: u64 = self.class_counts.get(c);
        let prior_den: u64 = self.class_counts.total;
        proof {
            lemma_pair_value_pos(self.class_stats().pairs(), c);
            lemma_pair_value_le_sum(self.class_stats().pairs(), c);
            assert(prior_num >= 1);
            assert(prior_num <= prior_den);
        }
        if ok {
            match den.checked_mul(prior_den as u128) {
                Some(d2) => {
                    proof {
                        assert(num * (prior_num as u128) <= den * (prior_den as u128)) by (
                        nonlinear_arith)
                            requires
                                num <= den,
                                prior_num <= prior_den,
                                num >= 0,
                                prior_num >= 0,
                        ;
                    }
                    let n2 = num.checked_mul(prior_num as u128).unwrap();
                    Score { num: n2, den: d2 }
                },
                None => {
                    Score { num: 0, den: 1 }
                },
            }
        } else {
            proof {
                let ed = self.evidence_den(ts, c);
                assert(ed * (prior_den as nat) >= ed) by (nonlinear_arith)
                    requires
                        prior_den >= 1,
                        ed >= 0,
                ;
            }
            Score { num: 0, den: 1 }
        }
    }

    /// Score every known class against the query document.
    ///
    /// When no token of the query was ever trained, the result is empty.
    /// Otherwise it holds one entry per known class, in registry order: the
    /// class and its exact relative score, the product over all seen query
    /// tokens of their likelihood factors times the class prior, underflowing
    /// to `0 / 1` only when the exact denominator exceeds `u128`. Unseen
    /// query tokens contribute nothing.
    #[verifier::loop_isolation(false)]
    pub fn analyze<U: Tokenize>(&self, data: U) -> (r: Vec<(u64, Score)>)
        requires
            self.wf(),
        ensures
            !self.any_seen(data.spec_tokens()) ==> r@.len() == 0,
            self.any_seen(data.spec_tokens()) ==> r@.len() == self.registry().len(),
            forall|i: int|
                0 <= i < r@.len() ==> (#[trigger] r@[i]).0 == self.registry()[i]
                    && score_matches(
                    r@[i].1,
                    self.score_num(data.spec_tokens(), self.registry()[i]),
                    self.score_den(data.spec_tokens(), self.registry()[i]),
                ),
    {
        let toks = data.tokenize();
        let ghost ts = data.spec_tokens();
        proof {
            assert(views(toks@) =~= ts);
        }
        let n = toks.len();
        let mut seen = false;
        let mut j: usize = 0;
        while j < n
            invariant
                j <= n,
                n == toks@.len(),
                seen == self.any_seen(ts.take(j as int)),
            decreases n - j,
        {
            proof {
                assert(ts.take(j + 1).drop_last() =~= ts.take(j as int));
                assert(ts.take(j + 1).last() == ts[j as int]);
                assert(ts[j as int] == toks@[j as int]@);
            }
            match self.token_index(&toks[j]) {
                Some(ti) => {
                    proof {
                        lemma_tok_at_index(self.tok_entries(), ti as int, ts[j as int]);
                        assert(self.token_seen(ts[j as int]));
                    }
                    seen = true;
                },
                None => {
                    proof {
                        assert(!self.token_seen(ts[j as int]));
                    }
                },
            }
            j += 1;
        }
        proof {
            assert(ts.take(n as int) =~= ts);
        }
        let mut result: Vec<(u64, Score)> = Vec::new();
        if !seen {
            return result;
        }
        let m = self.classes.len();
        let mut ci: usize = 0;
        while ci < m
            invariant
                ci <= m,
                m == self.registry().len(),
                result@.len() == ci,
                forall|i: int|
                    0 <= i < ci ==> (#[trigger] result@[i]).0 == self.registry()[i]
                        && score_matches(
                        result@[i].1,
                        self.score_num(ts, self.registry()[i]),
                        self.score_den(ts, self.registry()[i]),
                    ),
            decreases m - ci,
        {
            let c = self.classes[ci];
            proof {
                assert(self.registry()[ci as int] == c);
                assert(self.registry().contains(c));
            }
            let sc = self.score_for(c, &toks);
            result.push((c, sc));
            ci += 1;
        }
        result
    }
}

impl NaiveBayesClassifier {
    /// Accumulation invariant: the global total equals the sum of the
    /// per-class totals; every token's total equals the sum of its per-class
    /// counts; and the global total also equals the sum of all per-token
    /// totals.
    pub proof fn lemma_accumulation_invariant(self)
        requires
            self.wf(),
        ensures
            self.global_total() == pair_sum(self.class_stats().pairs()),
            forall|i: int|
                0 <= i < self.tok_entries().len() ==> (#[trigger] self.tok_entries()[i]).1.spec_total() as nat
                    == pair_sum(self.tok_entries()[i].1.pairs()),
            self.global_total() == tok_sum(self.tok_entries()),
    {
    }

    /// Registry invariant: the known-classes registry never holds a class
    /// twice, and it holds exactly the classes with recorded training counts.
    pub proof fn lemma_registry_distinct(self)
        requires
            self.wf(),
        ensures
            forall|i: int, j: int|
                0 <= i < j < self.registry().len() ==> self.registry()[i] != self.registry()[j],
            forall|c: u64|
                #[trigger] self.registry().contains(c) <==> pair_has_key(
                    self.class_stats().pairs(),
                    c,
                ),
    {
    }

    /// Untrained-token neutrality: a query document consisting solely of
    /// tokens never seen in training has no seen token at all, so `analyze`
    /// returns the empty map for it.
    pub proof fn lemma_unseen_query(self, toks: Seq<Seq<char>>)
        requires
            forall|i: int| 0 <= i < toks.len() ==> !self.token_seen(#[trigger] toks[i]),
        ensures
            !self.any_seen(toks),
        decreases toks.len(),
    {
        if toks.len() > 0 {
            assert(forall|i: int|
                0 <= i < toks.drop_last().len() ==> !self.token_seen(
                    #[trigger] toks.drop_last()[i],
                ));
            self.lemma_unseen_query(toks.drop_last());
            assert(toks.last() == toks[toks.len() - 1]);
        }
    }

    /// Fallback constant: a seen token that never co-occurred with class `c`
    /// contributes to `c` the factor exactly 1/100, so querying that token
    /// alone accumulates the pre-prior value 1/100 for `c`.
    pub proof fn lemma_fallback_factor(self, t: Seq<char>, c: u64)
        requires
            self.wf(),
            self.token_seen(t),
            self.token_count(t, c) == 0,
        ensures
            self.factor_num(t, c) == 1,
            self.factor_den(t, c) == 100,
            self.evidence_num(seq![t], c) == 1,
            self.evidence_den(seq![t], c) == 100,
    {
        assert(seq![t].drop_last() =~= Seq::<Seq<char>>::empty());
        assert(seq![t].last() == t);
        assert(self.evidence_num(Seq::<Seq<char>>::empty(), c) == 1);
        assert(self.evidence_den(Seq::<Seq<char>>::empty(), c) == 1);
        assert(self.evidence_num(seq![t], c) == 1 * self.factor_num(t, c));
        assert(self.evidence_den(seq![t], c) == 1 * self.factor_den(t, c));
    }

    /// Clamp behavior: a token trained exclusively under class `c`, queried
    /// alone, accumulates for `c` the pre-prior value exactly 99/100 — never
    /// the hard certainty 1.
    pub proof fn lemma_clamp_factor(self, t: Seq<char>, c: u64)
        requires
            self.wf(),
            self.token_seen(t),
            self.token_count(t, c) == self.token_total(t),
        ensures
            self.factor_num(t, c) == 99,
            self.factor_den(t, c) == 100,
            self.evidence_num(seq![t], c) == 99,
            self.evidence_den(seq![t], c) == 100,
    {
        assert(seq![t].drop_last() =~= Seq::<Seq<char>>::empty());
        assert(seq![t].last() == t);
        assert(self.evidence_num(Seq::<Seq<char>>::empty(), c) == 1);
        assert(self.evidence_den(Seq::<Seq<char>>::empty(), c) == 1);
        assert(self.evidence_num(seq![t], c) == 1 * self.factor_num(t, c));
        assert(self.evidence_den(seq![t], c) == 1 * self.factor_den(t, c));
    }
}

/// A token occurs in a sequence at most as many times as its length.
proof fn lemma_occ_le_len(toks: Seq<Seq<char>>, t: Seq<char>)
    ensures
        occ(toks, t) <= toks.len(),
    decreases toks.len(),
{
    if toks.len() > 0 {
        lemma_occ_le_len(toks.drop_last(), t);
    }
}

} // verus!
