//! The encoder's dictionary: from a phrase, given as the code of its prefix
//! and its last byte, to its code.
use crate::dictionary::copy_bytes;
use crate::model::{dict_after_reset, dict_ok, dict_with, initial_dict};
use crate::policy::Policy;
use std::collections::HashMap;
use vstd::prelude::*;

verus! {

broadcast use vstd::std_specs::hash::group_hash_axioms;

/// The key under which the extension of phrase `code` by `b` is filed.
pub open spec fn child_key(code: nat, b: u8) -> u128 {
    (code * 256 + b as nat) as u128
}

/// No phrase occurs twice.
pub open spec fn all_distinct(d: Seq<Seq<u8>>) -> bool {
    forall|i: int, j: int| 0 <= i < d.len() && 0 <= j < d.len() && i != j ==> d[i] != d[j]
}

proof fn lemma_child_key(c1: nat, b1: u8, c2: nat, b2: u8)
    requires
        c1 < 0x4000_0000_0000_0000,
        c2 < 0x4000_0000_0000_0000,
    ensures
        child_key(c1, b1) == child_key(c2, b2) <==> (c1 == c2 && b1 == b2),
        child_key(c1, b1) as nat == c1 * 256 + (b1 as nat),
{
    assert(c1 * 256 + (b1 as nat) < 0x1_0000_0000_0000_0000_0000) by (nonlinear_arith)
        requires
            c1 < 0x4000_0000_0000_0000,
            b1 < 256,
    ;
    assert(c2 * 256 + (b2 as nat) < 0x1_0000_0000_0000_0000_0000) by (nonlinear_arith)
        requires
            c2 < 0x4000_0000_0000_0000,
            b2 < 256,
    ;
    if c1 * 256 + (b1 as nat) == c2 * 256 + (b2 as nat) {
        assert(c1 == c2 && b1 == b2) by (nonlinear_arith)
            requires
                c1 * 256 + (b1 as nat) == c2 * 256 + (b2 as nat),
                b1 < 256,
                b2 < 256,
        ;
    }
}

/// Whether `long` is `short` with one more byte.
pub fn extends_by_one(long: &Vec<u8>, short: &Vec<u8>) -> (r: bool)
    ensures
        r == (long@.len() == short@.len() + 1 && long@.drop_last() == short@),
{
    if long.len() == 0 || long.len() - 1 != short.len() {
        return false;
    }
    let mut i: usize = 0;
    while i < short.len()
        invariant
            long@.len() == short@.len() + 1,
            i <= short.len(),
            forall|j: int| 0 <= j < i ==> long@[j] == short@[j],
        decreases short.len() - i,
    {
        if long[i] != short[i] {
            proof {
                assert(long@.drop_last()[i as int] != short@[i as int]);
            }
            return false;
        }
        i = i + 1;
    }
    proof {
        assert(long@.drop_last() =~= short@);
    }
    true
}

/// Phrase-to-code table of the encoder, grown and reset as its policy says.
pub struct PhraseIndex {
    policy: Policy,
    /// `child_key(c, b)` maps to the code of phrase `c` extended by `b`.
    children: HashMap<u128, u64>,
    size: u64,
    /// A phrase registered right after a reset whose prefix the dictionary no
    /// longer holds, with its code: it is filed once that prefix returns.
    orphan: Option<(Vec<u8>, u64)>,
    phrases: Ghost<Seq<Seq<u8>>>,
}

impl View for PhraseIndex {
    type V = Seq<Seq<u8>>;

    closed spec fn view(&self) -> Seq<Seq<u8>> {
        self.phrases@
    }
}

impl PhraseIndex {
    pub closed spec fn policy(&self) -> Policy {
        self.policy
    }

    pub closed spec fn has_orphan(&self) -> bool {
        self.orphan is Some
    }

    closed spec fn orphan_code_is(&self, i: int) -> bool {
        match self.orphan {
            Some(o) => o.1 == i,
            None => false,
        }
    }

    pub closed spec fn wf(&self) -> bool {
        let d = self.phrases@;
        &&& self.policy.valid()
        &&& dict_ok(self.policy, d)
        &&& all_distinct(d)
        &&& self.size == d.len()
        &&& self.size < 0x4000_0000_0000_0000
        &&& forall|c: nat, b: u8|
            c < d.len() ==> (#[trigger] self.children@.contains_key(child_key(c, b))
                <==> d.contains(d[c as int].push(b)))
        &&& forall|c: nat, b: u8|
            c < d.len() && #[trigger] self.children@.contains_key(child_key(c, b)) ==> {
                &&& self.children@[child_key(c, b)] < d.len()
                &&& d[self.children@[child_key(c, b)] as int] == d[c as int].push(b)
            }
        &&& forall|k: u128| #[trigger] self.children@.contains_key(k) ==> k < d.len() * 256
        &&& forall|i: int|
            0 <= i < d.len() && (#[trigger] d[i]).len() >= 2 ==> d.contains(d[i].drop_last())
                || self.orphan_code_is(i)
        &&& match self.orphan {
            Some(o) => {
                &&& o.1 < d.len()
                &&& d[o.1 as int] == o.0@
                &&& o.0@.len() >= 2
                &&& !d.contains(o.0@.drop_last())
            },
            None => true,
        }
    }

    /// What a well-formed index guarantees.
    pub proof fn lemma_shape(&self)
        requires
            self.wf(),
        ensures
            self.policy().valid(),
            dict_ok(self.policy(), self@),
            all_distinct(self@),
            self@.len() < 0x4000_0000_0000_0000,
    {
    }

    proof fn lemma_initial_shape(policy: Policy)
        requires
            policy.valid(),
        ensures
            dict_ok(policy, initial_dict()),
            all_distinct(initial_dict()),
            forall|x: Seq<u8>| #[trigger] initial_dict().contains(x) ==> x.len() == 1,
    {
        crate::policy::lemma_two_pow_values();
        if policy.is_bounded() {
            crate::bits::lemma_two_pow_monotonic(8, policy.max_width());
        }
        let d = initial_dict();
        assert forall|i: int, j: int| 0 <= i < d.len() && 0 <= j < d.len() && i != j implies d[i]
            != d[j] by {
            assert(d[i][0] == i as u8);
            assert(d[j][0] == j as u8);
        }
    }

    fn reset_state(policy: Policy) -> (r: PhraseIndex)
        requires
            policy.valid(),
        ensures
            r.wf(),
            r@ == initial_dict(),
            r.policy() == policy,
            !r.has_orphan(),
    {
        let r = PhraseIndex {
            policy,
            children: HashMap::new(),
            size: 256,
            orphan: None,
            phrases: Ghost(initial_dict()),
        };
        proof {
            Self::lemma_initial_shape(policy);
            let d = initial_dict();
            assert forall|c: nat, b: u8| c < d.len() implies !d.contains(
                #[trigger] d[c as int].push(b),
            ) by {
                assert(d[c as int].push(b).len() == 2);
            }
            assert forall|i: int| 0 <= i < d.len() implies (#[trigger] d[i]).len() < 2 by {}
        }
        r
    }

    /// The 256 single-byte phrases under `policy`.
    pub fn new(policy: Policy) -> (r: PhraseIndex)
        requires
            policy.valid(),
        ensures
            r.wf(),
            r@ == initial_dict(),
            r.policy() == policy,
    {
        Self::reset_state(policy)
    }

    /// The number of entries.
    pub fn size(&self) -> (n: u64)
        requires
            self.wf(),
        ensures
            n == self@.len(),
    {
        self.size
    }

    /// The width of a code sent while the dictionary has its present size.
    pub fn current_width(&self) -> (w: u32)
        requires
            self.wf(),
        ensures
            w as nat == self.policy().width_for(self@.len()),
            8 <= w <= 64,
    {
        self.policy.code_width(self.size)
    }

    /// The code of phrase `prefix` extended by `b`, if the dictionary holds it.
    pub fn lookup_forward(&self, prefix: u64, b: u8) -> (r: Option<u64>)
        requires
            self.wf(),
            prefix < self@.len(),
        ensures
            r is Some <==> self@.contains(self@[prefix as int].push(b)),
            r is Some ==> r.unwrap() < self@.len() && self@[r.unwrap() as int] == self@[prefix as int].push(b),
    {
        let k: u128 = (prefix as u128) * 256 + (b as u128);
        proof {
            lemma_child_key(prefix as nat, b, 0, 0);
            assert(k == child_key(prefix as nat, b));
        }
        match self.children.get(&k) {
            Some(c) => Some(*c),
            None => None,
        }
    }

    /// Goes back to the 256 single-byte phrases when the policy resets and the
    /// dictionary is full; tells whether it did.
    pub fn maybe_reset(&mut self) -> (r: bool)
        requires
            old(self).wf(),
        ensures
            final(self).wf(),
            final(self).policy() == old(self).policy(),
            final(self)@ == dict_after_reset(old(self).policy(), old(self)@),
            r == (old(self).policy().resets() && old(self)@.len() == old(self).policy().limit()),
            r ==> !final(self).has_orphan(),
            !r ==> final(self).has_orphan() == old(self).has_orphan(),
    {
        if self.policy.resets_when_full() {
            match self.policy.limit_entries() {
                Some(l) => {
                    if self.size == l {
                        *self = Self::reset_state(self.policy);
                        return true;
                    }
                },
                None => {},
            }
        }
        false
    }
    /// Registers `phrase` under the next code if there is room, and returns
    /// that code. `prefix` is the code of `phrase` without its last byte, or
    /// `None` right after a reset that dropped that prefix.
    pub fn insert(&mut self, phrase: &Vec<u8>, prefix: Option<u64>) -> (r: Option<u64>)
        requires
            old(self).wf(),
            phrase@.len() >= 2,
            !old(self)@.contains(phrase@),
            old(self)@.len() + 1 < 0x4000_0000_0000_0000,
            match prefix {
                Some(pc) => pc < old(self)@.len() && old(self)@[pc as int] == phrase@.drop_last(),
                None => !old(self)@.contains(phrase@.drop_last()) && !old(self).has_orphan(),
            },
        ensures
            final(self).wf(),
            final(self).policy() == old(self).policy(),
            final(self)@ == dict_with(old(self).policy(), old(self)@, phrase@),
            r == (if old(self).policy().has_room(old(self)@.len()) {
                Some(old(self)@.len() as u64)
            } else {
                None::<u64>
            }),
    {
        let n = self.size;
        let room = match self.policy.limit_entries() {
            None => true,
            Some(l) => n < l,
        };
        if !room {
            return None;
        }
        let ghost d = self.phrases@;
        let ghost kids = self.children@;
        let ghost q = phrase@;
        let last = phrase[phrase.len() - 1];
        proof {
            assert(q.last() == last);
            assert(q =~= q.drop_last().push(last));
        }
        let mut next_orphan: Option<(Vec<u8>, u64)> = None;
        let ghost mut linked: Option<(Seq<u8>, u64)> = None;
        match prefix {
            Some(pc) => {
                let k: u128 = (pc as u128) * 256 + (last as u128);
                proof {
                    lemma_child_key(pc as nat, last, 0, 0);
                    assert(k == child_key(pc as nat, last));
                }
                self.children.insert(k, n);
                match &self.orphan {
                    Some(entry) => {
                        if extends_by_one(&entry.0, phrase) {
                            let o_last = entry.0[entry.0.len() - 1];
                            let k2: u128 = (n as u128) * 256 + (o_last as u128);
                            proof {
                                lemma_child_key(n as nat, o_last, 0, 0);
                                assert(k2 == child_key(n as nat, o_last));
                                linked = Some((entry.0@, entry.1));
                                assert(entry.0@ =~= q.push(o_last));
                            }
                            self.children.insert(k2, entry.1);
                        } else {
                            next_orphan = Some((copy_bytes(&entry.0), entry.1));
                        }
                    },
                    None => {},
                }
            },
            None => {
                next_orphan = Some((copy_bytes(phrase), n));
            },
        }
        self.orphan = next_orphan;
        self.size = n + 1;
        self.phrases = Ghost(d.push(q));
        proof {
            let d2 = d.push(q);
            assert(d2 == dict_with(self.policy, d, q));
            // Shape.
            assert forall|i: int| 0 <= i < 256 implies #[trigger] d2[i] == seq![i as u8] by {
                assert(d[i] == seq![i as u8]);
            }
            assert forall|i: int| 0 <= i < d2.len() implies #[trigger] d2[i].len() > 0 by {
                if i < d.len() {
                    assert(d[i].len() > 0);
                }
            }
            assert forall|i: int, j: int|
                0 <= i < d2.len() && 0 <= j < d2.len() && i != j implies d2[i] != d2[j] by {
                if i < d.len() && j < d.len() {
                    assert(d[i] != d[j]);
                } else if i < d.len() {
                    assert(d.contains(d[i]));
                } else {
                    assert(d.contains(d[j]));
                }
            }
            // Which extensions the new table files.
            assert forall|c: nat, b: u8| c < d2.len() implies (#[trigger] self.children@.contains_key(
                child_key(c, b),
            ) <==> d2.contains(d2[c as int].push(b))) by {
                lemma_child_key(c, b, n as nat, last);
                if c < d.len() {
                    assert(d2[c as int] == d[c as int]);
                    if d.contains(d[c as int].push(b)) {
                        let i = choose|i: int| 0 <= i < d.len() && d[i] == d[c as int].push(b);
                        assert(d2[i] == d[c as int].push(b));
                    }
                    if d2.contains(d2[c as int].push(b)) && !d.contains(d[c as int].push(b)) {
                        let i = choose|i: int| 0 <= i < d2.len() && d2[i] == d2[c as int].push(b);
                        if i < d.len() {
                            assert(d[i] == d[c as int].push(b));
                            assert(false);
                        }
                        assert(q == d[c as int].push(b));
                        assert(q.drop_last() =~= d[c as int]);
                        match prefix {
                            Some(pc) => {
                                assert(d[pc as int] == d[c as int]);
                                assert(pc == c);
                                lemma_child_key(c, b, pc as nat, last);
                            },
                            None => {
                                assert(d.contains(d[c as int]));
                            },
                        }
                    }
                    match prefix {
                        Some(pc) => {
                            lemma_child_key(c, b, pc as nat, last);
                            if c == pc && b == last {
                                assert(d2[d.len() as int] == d[c as int].push(b));
                            }
                        },
                        None => {},
                    }
                    match linked {
                        Some(o) => {
                            lemma_child_key(c, b, n as nat, o.0.last());
                        },
                        None => {},
                    }
                    if kids.contains_key(child_key(c, b)) {
                        assert(d.contains(d[c as int].push(b)));
                    }
                } else {
                    assert(c == n);
                    assert(d2[c as int] == q);
                    assert(!kids.contains_key(child_key(c, b)));
                    match prefix {
                        Some(pc) => {
                            lemma_child_key(c, b, pc as nat, last);
                        },
                        None => {},
                    }
                    if d2.contains(q.push(b)) {
                        let i = choose|i: int| 0 <= i < d2.len() && d2[i] == q.push(b);
                        assert(i != d.len());
                        assert(d[i] == q.push(b));
                        assert(d[i].drop_last() =~= q);
                        assert(self.children@.contains_key(child_key(c, b)));
                    }
                    match linked {
                        Some(o) => {
                            lemma_child_key(c, b, n as nat, o.0.last());
                            if b == o.0.last() {
                                assert(d2[o.1 as int] == q.push(b));
                            }
                        },
                        None => {},
                    }
                }
            }
            assert forall|c: nat, b: u8|
                c < d2.len() && #[trigger] self.children@.contains_key(child_key(c, b)) implies {
                &&& self.children@[child_key(c, b)] < d2.len()
                &&& d2[self.children@[child_key(c, b)] as int] == d2[c as int].push(b)
            } by {
                lemma_child_key(c, b, n as nat, last);
                match prefix {
                    Some(pc) => {
                        lemma_child_key(c, b, pc as nat, last);
                    },
                    None => {},
                }
                match linked {
                    Some(o) => {
                        lemma_child_key(c, b, n as nat, o.0.last());
                        assert(o.0 == q.push(o.0.last()));
                    },
                    None => {},
                }
                if c == n {
                    assert(!kids.contains_key(child_key(c, b)));
                }
            }
            assert forall|k: u128| #[trigger] self.children@.contains_key(k) implies k < d2.len()
                * 256 by {
                if kids.contains_key(k) {
                    assert(k < d.len() * 256);
                }
                match prefix {
                    Some(pc) => {
                        lemma_child_key(pc as nat, last, 0, 0);
                    },
                    None => {},
                }
                match linked {
                    Some(o) => {
                        lemma_child_key(n as nat, o.0.last(), 0, 0);
                    },
                    None => {},
                }
            }
            assert forall|i: int|
                0 <= i < d2.len() && (#[trigger] d2[i]).len() >= 2 implies d2.contains(
                d2[i].drop_last(),
            ) || self.orphan_code_is(i) by {
                if i < d.len() {
                    assert(d2[i] == d[i]);
                    if d.contains(d[i].drop_last()) {
                        let j = choose|j: int| 0 <= j < d.len() && d[j] == d[i].drop_last();
                        assert(d2[j] == d[i].drop_last());
                    } else {
                        match linked {
                            Some(o) => {
                                assert(d2[d.len() as int] == q);
                            },
                            None => {},
                        }
                    }
                } else {
                    match prefix {
                        Some(pc) => {
                            assert(d2[pc as int] == q.drop_last());
                        },
                        None => {},
                    }
                }
            }
            if self.orphan is Some {
                let o = self.orphan->Some_0;
                if o.0@.drop_last() == q {
                    assert(false);
                }
                assert(!d2.contains(o.0@.drop_last()));
            }
        }
        Some(n)
    }
}

} // verus!
