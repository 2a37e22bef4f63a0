use vstd::prelude::*;

verus! {

/// One cell of the set: a value and the rest of the chain, owned.
struct Node {
    elem: i32,
    next: Option<Box<Node>>,
}

/// A set of `i32` kept as a chain of cells in strictly increasing order,
/// together with a count of its cells.
pub struct List {
    head: Option<Box<Node>>,
    len: u64,
}

/// The values of a chain, from its first cell to its last.
spec fn chain(link: Option<Box<Node>>) -> Seq<i32>
    decreases link,
{
    match link {
        None => Seq::empty(),
        Some(node) => seq![node.elem].add(chain(node.next)),
    }
}

/// Each value is smaller than every value after it: the sequence is sorted
/// and holds no value twice.
pub open spec fn strictly_increasing(s: Seq<i32>) -> bool {
    forall|i: int, j: int| 0 <= i < j < s.len() ==> s[i] < s[j]
}

/// `s` with `v` placed before the first value that is not smaller than `v`,
/// unless that value is `v` itself, in which case `s` is returned as it is.
pub open spec fn insert_sorted(s: Seq<i32>, v: i32) -> Seq<i32>
    decreases s.len(),
{
    if s.len() == 0 {
        seq![v]
    } else if v < s[0] {
        seq![v].add(s)
    } else if v == s[0] {
        s
    } else {
        seq![s[0]].add(insert_sorted(s.drop_first(), v))
    }
}

/// `s` without the first occurrence of `v` (the whole of `s` if none).
pub open spec fn remove_value(s: Seq<i32>, v: i32) -> Seq<i32>
    decreases s.len(),
{
    if s.len() == 0 {
        s
    } else if s[0] == v {
        s.drop_first()
    } else {
        seq![s[0]].add(remove_value(s.drop_first(), v))
    }
}

/// A strictly increasing sequence of `i32` has at most 2^32 values, so its
/// length always fits a `u64` count with room to spare.
proof fn lemma_len_bound(s: Seq<i32>)
    requires
        strictly_increasing(s),
    ensures
        s.len() <= 0x1_0000_0000,
{
    if s.len() > 0 {
        lemma_spread(s, s.len() - 1);
    }
}

/// In a strictly increasing sequence the value at `n` exceeds the first by at least `n`.
proof fn lemma_spread(s: Seq<i32>, n: int)
    requires
        strictly_increasing(s),
        0 <= n < s.len(),
    ensures
        s[n] >= s[0] + n,
    decreases n,
{
    if n > 0 {
        lemma_spread(s, n - 1);
    }
}

/// Inserting past a prefix of smaller values leaves that prefix in front.
proof fn lemma_insert_after_prefix(prefix: Seq<i32>, rest: Seq<i32>, v: i32)
    requires
        forall|i: int| 0 <= i < prefix.len() ==> prefix[i] < v,
    ensures
        insert_sorted(prefix.add(rest), v) == prefix.add(insert_sorted(rest, v)),
    decreases prefix.len(),
{
    if prefix.len() > 0 {
        let tail = prefix.drop_first();
        lemma_insert_after_prefix(tail, rest, v);
        assert(prefix.add(rest).drop_first() =~= tail.add(rest));
        assert(seq![prefix[0]].add(tail.add(rest)) =~= prefix.add(rest));
        assert(seq![prefix[0]].add(tail.add(insert_sorted(rest, v))) =~= prefix.add(
            insert_sorted(rest, v),
        ));
    } else {
        assert(prefix.add(rest) =~= rest);
        assert(prefix.add(insert_sorted(rest, v)) =~= insert_sorted(rest, v));
    }
}

/// Removing past a prefix of smaller values leaves that prefix in front.
proof fn lemma_remove_after_prefix(prefix: Seq<i32>, rest: Seq<i32>, v: i32)
    requires
        forall|i: int| 0 <= i < prefix.len() ==> prefix[i] < v,
    ensures
        remove_value(prefix.add(rest), v) == prefix.add(remove_value(rest, v)),
    decreases prefix.len(),
{
    if prefix.len() > 0 {
        let tail = prefix.drop_first();
        lemma_remove_after_prefix(tail, rest, v);
        assert(prefix.add(rest).drop_first() =~= tail.add(rest));
        assert(seq![prefix[0]].add(tail.add(remove_value(rest, v))) =~= prefix.add(
            remove_value(rest, v),
        ));
    } else {
        assert(prefix.add(rest) =~= rest);
        assert(prefix.add(remove_value(rest, v)) =~= remove_value(rest, v));
    }
}

/// Membership in a sequence with one value put in front.
proof fn lemma_cons_contains(a: i32, t: Seq<i32>, x: i32)
    ensures
        seq![a].add(t).contains(x) <==> (x == a || t.contains(x)),
{
    let c = seq![a].add(t);
    if c.contains(x) && x != a {
        let k = choose|k: int| 0 <= k < c.len() && c[k] == x;
        assert(t[k - 1] == x);
    }
    if t.contains(x) {
        let k = choose|k: int| 0 <= k < t.len() && t[k] == x;
        assert(c[k + 1] == x);
    }
    if x == a {
        assert(c[0] == x);
    }
}

/// What `insert_sorted` does to a strictly increasing sequence: it stays
/// strictly increasing, gains exactly `v`, and is unchanged when `v` is there.
pub proof fn lemma_insert_sorted(s: Seq<i32>, v: i32)
    requires
        strictly_increasing(s),
    ensures
        strictly_increasing(insert_sorted(s, v)),
        s.contains(v) ==> insert_sorted(s, v) == s,
        !s.contains(v) ==> insert_sorted(s, v).len() == s.len() + 1,
        forall|x: i32| insert_sorted(s, v).contains(x) <==> (s.contains(x) || x == v),
    decreases s.len(),
{
    let r = insert_sorted(s, v);
    if s.len() == 0 {
        assert(r.len() == 1 && r[0] == v);
        assert forall|x: i32| r.contains(x) <==> (s.contains(x) || x == v) by {
            if x == v {
                assert(r[0] == x);
            }
        }
    } else {
        let t = s.drop_first();
        assert(s =~= seq![s[0]].add(t));
        if v < s[0] {
            assert(!s.contains(v));
            assert forall|x: i32| r.contains(x) <==> (s.contains(x) || x == v) by {
                lemma_cons_contains(v, s, x);
            }
        } else if v == s[0] {
            lemma_cons_contains(s[0], t, v);
            assert(r == s);
        } else {
            assert(strictly_increasing(t));
            lemma_insert_sorted(t, v);
            let rt = insert_sorted(t, v);
            assert forall|i: int, j: int| 0 <= i < j < r.len() implies r[i] < r[j] by {
                if i == 0 {
                    assert(rt[j - 1] == r[j]);
                    assert(rt.contains(r[j]));
                    if t.contains(r[j]) {
                        let m = choose|m: int| 0 <= m < t.len() && t[m] == r[j];
                        assert(s[m + 1] == r[j]);
                    }
                }
            }
            assert(r == seq![s[0]].add(rt));
            assert forall|x: i32| r.contains(x) <==> (s.contains(x) || x == v) by {
                lemma_cons_contains(s[0], rt, x);
                lemma_cons_contains(s[0], t, x);
            }
            if s.contains(v) {
                assert(r =~= s);
            }
        }
    }
}

/// What `remove_value` does to a strictly increasing sequence: it stays
/// strictly increasing, loses exactly `v`, and is unchanged when `v` is absent.
pub proof fn lemma_remove_value(s: Seq<i32>, v: i32)
    requires
        strictly_increasing(s),
    ensures
        strictly_increasing(remove_value(s, v)),
        !s.contains(v) ==> remove_value(s, v) == s,
        s.contains(v) ==> remove_value(s, v).len() + 1 == s.len(),
        forall|x: i32| remove_value(s, v).contains(x) <==> (s.contains(x) && x != v),
    decreases s.len(),
{
    let r = remove_value(s, v);
    if s.len() > 0 {
        let t = s.drop_first();
        assert(s =~= seq![s[0]].add(t));
        assert(strictly_increasing(t));
        if s[0] == v {
            assert(!t.contains(v)) by {
                if t.contains(v) {
                    let m = choose|m: int| 0 <= m < t.len() && t[m] == v;
                    assert(s[m + 1] == v);
                }
            }
            assert(r == t);
            assert forall|x: i32| r.contains(x) <==> (s.contains(x) && x != v) by {
                lemma_cons_contains(s[0], t, x);
            }
        } else {
            lemma_remove_value(t, v);
            let rt = remove_value(t, v);
            assert(r == seq![s[0]].add(rt));
            assert forall|i: int, j: int| 0 <= i < j < r.len() implies r[i] < r[j] by {
                if i == 0 {
                    assert(rt[j - 1] == r[j]);
                    assert(rt.contains(r[j]));
                    assert(t.contains(r[j]));
                    let m = choose|m: int| 0 <= m < t.len() && t[m] == r[j];
                    assert(s[m + 1] == r[j]);
                }
            }
            assert forall|x: i32| r.contains(x) <==> (s.contains(x) && x != v) by {
                lemma_cons_contains(s[0], rt, x);
                lemma_cons_contains(s[0], t, x);
            }
            if !s.contains(v) {
                assert(r =~= s);
            }
        }
    }
}

/// Where a walk that looks for a value stands at one link of the chain.
enum Step {
    /// The chain ends here or goes on with a larger value: the value
    /// belongs at this link.
    Here,
    /// This link's cell holds the value.
    Found,
    /// This link's cell holds a smaller value: the walk goes on.
    Onward,
}

/// Compares `elem` with the first value of the chain at `link`.
fn probe(link: &Option<Box<Node>>, elem: i32) -> (r: Step)
    ensures
        r is Here <==> (chain(*link).len() == 0 || elem < chain(*link)[0]),
        r is Found <==> (chain(*link).len() > 0 && elem == chain(*link)[0]),
        r is Onward <==> (chain(*link).len() > 0 && chain(*link)[0] < elem),
{
    match link {
        None => Step::Here,
        Some(node) => if elem == node.elem {
            Step::Found
        } else if elem < node.elem {
            Step::Here
        } else {
            Step::Onward
        },
    }
}

/// Walks `link` to the place of `elem` and puts a new cell there, unless a
/// cell already holds `elem`.
fn insert_into(link: &mut Option<Box<Node>>, elem: i32) -> (r: bool)
    requires
        strictly_increasing(chain(*old(link))),
    ensures
        r == !chain(*old(link)).contains(elem),
        chain(*final(link)) == insert_sorted(chain(*old(link)), elem),
{
    let ghost s = chain(*link);
    let ghost mut prefix: Seq<i32> = Seq::empty();
    let mut cur = link;
    loop
        invariant
            s == chain(*old(link)),
            s == prefix.add(chain(*cur)),
            strictly_increasing(s),
            forall|i: int| 0 <= i < prefix.len() ==> prefix[i] < elem,
            chain(*final(link)) == prefix.add(chain(*final(cur))),
        decreases chain(*cur).len(),
    {
        match probe(&*cur, elem) {
            Step::Found => {
                proof {
                    lemma_insert_after_prefix(prefix, chain(*cur), elem);
                    assert(s[prefix.len() as int] == elem);
                }
                return false;
            },
            Step::Here => {
                let ghost rest = chain(*cur);
                let tail = cur.take();
                *cur = Some(Box::new(Node { elem: elem, next: tail }));
                proof {
                    lemma_insert_after_prefix(prefix, rest, elem);
                    assert(insert_sorted(rest, elem) =~= seq![elem].add(rest));
                    assert(chain(*cur) =~= seq![elem].add(rest));
                    assert forall|i: int| 0 <= i < s.len() implies s[i] != elem by {
                        if i >= prefix.len() {
                            assert(s[i] >= s[prefix.len() as int]);
                        }
                    }
                }
                return true;
            },
            Step::Onward => {},
        }
        let ghost here = chain(*cur);
        match cur {
            Some(node) => {
                proof {
                    assert(prefix.push(node.elem).add(chain(node.next)) =~= prefix.add(here));
                    prefix = prefix.push(node.elem);
                }
                cur = &mut node.next;
            },
            None => {
                // `probe` saw a cell at this link, so this arm is never taken.
                return false;
            },
        }
    }
}

/// Walks `link` to the cell that holds `elem`, if any, and unlinks it; the
/// walk stops at the first larger value.
fn delete_from(link: &mut Option<Box<Node>>, elem: i32) -> (r: bool)
    requires
        strictly_increasing(chain(*old(link))),
    ensures
        r == chain(*old(link)).contains(elem),
        chain(*final(link)) == remove_value(chain(*old(link)), elem),
{
    let ghost s = chain(*link);
    let ghost mut prefix: Seq<i32> = Seq::empty();
    let mut cur = link;
    loop
        invariant
            s == chain(*old(link)),
            s == prefix.add(chain(*cur)),
            strictly_increasing(s),
            forall|i: int| 0 <= i < prefix.len() ==> prefix[i] < elem,
            chain(*final(link)) == prefix.add(chain(*final(cur))),
        decreases chain(*cur).len(),
    {
        match probe(&*cur, elem) {
            Step::Here => {
                proof {
                    assert forall|i: int| 0 <= i < s.len() implies s[i] != elem by {
                        if i >= prefix.len() {
                            assert(s[i] >= s[prefix.len() as int]);
                        }
                    }
                    lemma_remove_value(s, elem);
                }
                return false;
            },
            Step::Found => {
                let ghost rest = chain(*cur);
                let removed = cur.take();
                match removed {
                    Some(mut node) => {
                        *cur = node.next.take();
                    },
                    None => {},
                }
                proof {
                    lemma_remove_after_prefix(prefix, rest, elem);
                    assert(s[prefix.len() as int] == elem);
                }
                return true;
            },
            Step::Onward => {},
        }
        let ghost here = chain(*cur);
        match cur {
            Some(node) => {
                proof {
                    assert(prefix.push(node.elem).add(chain(node.next)) =~= prefix.add(here));
                    prefix = prefix.push(node.elem);
                }
                cur = &mut node.next;
            },
            None => {
                // `probe` saw a cell at this link, so this arm is never taken.
                return false;
            },
        }
    }
}

impl View for List {
    type V = Seq<i32>;

    /// The values of the set in increasing order.
    closed spec fn view(&self) -> Seq<i32> {
        chain(self.head)
    }
}

impl List {
    /// The chain is strictly increasing and the count matches its length.
    pub closed spec fn wf(&self) -> bool {
        &&& strictly_increasing(self@)
        &&& self.len == self@.len()
    }

    /// The count of cells that the set keeps beside its chain.
    pub closed spec fn count(&self) -> nat {
        self.len as nat
    }

    /// An empty set.
    pub fn new() -> (r: Self)
        ensures
            r.wf(),
            r@ == Seq::<i32>::empty(),
    {
        List { head: None, len: 0 }
    }

    /// Adds `elem` unless it is already there; tells whether it was added.
    pub fn insert(&mut self, elem: i32) -> (r: bool)
        requires
            old(self).wf(),
        ensures
            final(self).wf(),
            r == !old(self)@.contains(elem),
            final(self)@ == insert_sorted(old(self)@, elem),
            old(self)@.contains(elem) ==> final(self)@ == old(self)@,
    {
        proof {
            lemma_insert_sorted(self@, elem);
        }
        let added = insert_into(&mut self.head, elem);
        proof {
            lemma_len_bound(self@);
        }
        if added {
            self.len = self.len + 1;
        }
        added
    }

    /// Removes `elem` if it is there; tells whether it was removed.
    pub fn delete(&mut self, elem: i32) -> (r: bool)
        requires
            old(self).wf(),
        ensures
            final(self).wf(),
            r == old(self)@.contains(elem),
            final(self)@ == remove_value(old(self)@, elem),
            !old(self)@.contains(elem) ==> final(self)@ == old(self)@,
    {
        proof {
            lemma_remove_value(self@, elem);
        }
        let removed = delete_from(&mut self.head, elem);
        if removed {
            self.len = self.len - 1;
        }
        removed
    }

    /// The number of values in the set.
    pub fn len(&self) -> (r: u64)
        requires
            self.wf(),
        ensures
            r == self@.len(),
            r == self.count(),
    {
        self.len
    }

    /// The values of the set, smallest first.
    pub fn values(&self) -> (r: Vec<i32>)
        ensures
            r@ == self@,
    {
        let mut out: Vec<i32> = Vec::new();
        let mut cur = &self.head;
        loop
            invariant
                out@.add(chain(*cur)) == self@,
            decreases chain(*cur).len(),
        {
            match cur {
                None => {
                    proof {
                        assert(out@.add(chain(*cur)) =~= out@);
                    }
                    return out;
                },
                Some(node) => {
                    proof {
                        assert(out@.push(node.elem).add(chain(node.next)) =~= out@.add(chain(*cur)));
                    }
                    out.push(node.elem);
                    cur = &node.next;
                },
            }
        }
    }
}

impl Drop for List {
    /// Releases the cells one at a time, so that a long chain is not torn
    /// down through one nested destructor call per cell.
    fn drop(&mut self)
        opens_invariants none
        no_unwind
    {
        let mut cur: Option<Box<Node>> = None;
        std::mem::swap(&mut cur, &mut self.head);
        loop
            decreases chain(cur).len(),
        {
            match cur {
                Some(mut node) => {
                    let mut rest: Option<Box<Node>> = None;
                    std::mem::swap(&mut rest, &mut node.next);
                    cur = rest;
                },
                None => {
                    break;
                },
            }
        }
    }
}

/// Every well-formed set, which is every set that `new`, `insert` and
/// `delete` can produce, lists its values in strictly increasing order, so
/// no value appears twice.
pub proof fn lemma_values_sorted_unique(l: &List)
    requires
        l.wf(),
    ensures
        strictly_increasing(l@),
        forall|i: int, j: int| 0 <= i < l@.len() && 0 <= j < l@.len() && i != j ==> l@[i] != l@[j],
{
    assert forall|i: int, j: int| 0 <= i < l@.len() && 0 <= j < l@.len() && i != j implies l@[i]
        != l@[j] by {
        if i < j {
            assert(l@[i] < l@[j]);
        } else {
            assert(l@[j] < l@[i]);
        }
    }
}

/// In every well-formed set the kept count equals the number of values that
/// the walk from the first cell yields.
pub proof fn lemma_count_matches_values(l: &List)
    requires
        l.wf(),
    ensures
        l.count() == l@.len(),
{
}

/// Inserting a value that the set lacks and then deleting it succeeds both
/// times and gives back the values the set had before.
pub proof fn lemma_insert_delete_round_trip(l: &List, v: i32)
    requires
        l.wf(),
        !l@.contains(v),
    ensures
        insert_sorted(l@, v).contains(v),
        remove_value(insert_sorted(l@, v), v) == l@,
{
    lemma_insert_sorted(l@, v);
    lemma_insert_sorted_then_remove(l@, v);
}

/// Removing a value from a sequence it was just placed into gives the
/// sequence back, when the value was not there before.
proof fn lemma_insert_sorted_then_remove(s: Seq<i32>, v: i32)
    requires
        !s.contains(v),
    ensures
        remove_value(insert_sorted(s, v), v) == s,
    decreases s.len(),
{
    if s.len() == 0 {
        assert(insert_sorted(s, v).drop_first() =~= s);
    } else if v < s[0] {
        assert(insert_sorted(s, v).drop_first() =~= s);
    } else {
        assert(v != s[0]);
        let t = s.drop_first();
        assert(!t.contains(v)) by {
            if t.contains(v) {
                let m = choose|m: int| 0 <= m < t.len() && t[m] == v;
                assert(s[m + 1] == v);
            }
        }
        lemma_insert_sorted_then_remove(t, v);
        let r = insert_sorted(s, v);
        assert(r == seq![s[0]].add(insert_sorted(t, v)));
        assert(r.drop_first() =~= insert_sorted(t, v));
        assert(seq![s[0]].add(t) =~= s);
    }
}

} // verus!
