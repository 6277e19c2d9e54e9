//! The decoder's dictionary: from code to phrase.
use crate::model::{dict_after_reset, dict_ok, dict_with, initial_dict};
use crate::policy::Policy;
use vstd::prelude::*;

verus! {

/// The phrases that a vector of byte vectors holds.
pub open spec fn phrases_of(v: Seq<Vec<u8>>) -> Seq<Seq<u8>> {
    v.map_values(|e: Vec<u8>| e@)
}

/// A copy of a byte string.
pub fn copy_bytes(v: &Vec<u8>) -> (r: Vec<u8>)
    ensures
        r@ == v@,
{
    let mut r: Vec<u8> = Vec::new();
    let mut i: usize = 0;
    while i < v.len()
        invariant
            i <= v.len(),
            r@ == v@.take(i as int),
        decreases v.len() - i,
    {
        r.push(v[i]);
        i = i + 1;
        proof {
            assert(r@ =~= v@.take(i as int));
        }
    }
    proof {
        assert(v@.take(v.len() as int) =~= v@);
    }
    r
}

/// The 256 single-byte phrases.
pub fn initial_entries() -> (r: Vec<Vec<u8>>)
    ensures
        phrases_of(r@) == initial_dict(),
{
    let mut r: Vec<Vec<u8>> = Vec::new();
    let mut i: u64 = 0;
    while i < 256
        invariant
            i <= 256,
            r@.len() == i,
            forall|j: int| 0 <= j < i ==> (#[trigger] r@[j])@ == seq![j as u8],
        decreases 256 - i,
    {
        let mut e: Vec<u8> = Vec::new();
        e.push(i as u8);
        proof {
            assert(e@ =~= seq![i as u8]);
        }
        r.push(e);
        i = i + 1;
    }
    proof {
        assert(phrases_of(r@) =~= initial_dict());
    }
    r
}

/// Code-to-phrase table, grown and reset as its policy says.
pub struct Dictionary {
    policy: Policy,
    entries: Vec<Vec<u8>>,
}

impl View for Dictionary {
    type V = Seq<Seq<u8>>;

    closed spec fn view(&self) -> Seq<Seq<u8>> {
        phrases_of(self.entries@)
    }
}

impl Dictionary {
    pub closed spec fn policy(&self) -> Policy {
        self.policy
    }

    /// A valid policy, and a dictionary of the shape that policy keeps.
    pub closed spec fn wf(&self) -> bool {
        &&& self.policy.valid()
        &&& dict_ok(self.policy, self@)
        &&& self@.len() < 0x4000_0000_0000_0000
    }

    /// What a well-formed dictionary guarantees.
    pub proof fn lemma_shape(&self)
        requires
            self.wf(),
        ensures
            self.policy().valid(),
            dict_ok(self.policy(), self@),
            self@.len() < 0x4000_0000_0000_0000,
    {
    }

    /// The 256 single-byte phrases under `policy`.
    pub fn new(policy: Policy) -> (d: Dictionary)
        requires
            policy.valid(),
        ensures
            d.wf(),
            d@ == initial_dict(),
            d.policy() == policy,
    {
        let d = Dictionary { policy, entries: initial_entries() };
        proof {
            crate::policy::lemma_two_pow_values();
            if policy.is_bounded() {
                crate::bits::lemma_two_pow_monotonic(8, policy.max_width());
            }
        }
        d
    }

    /// The number of entries.
    pub fn size(&self) -> (n: u64)
        requires
            self.wf(),
        ensures
            n == self@.len(),
    {
        self.entries.len() as u64
    }

    /// The width of a code sent while the dictionary has its present size.
    pub fn current_width(&self) -> (w: u32)
        requires
            self.wf(),
        ensures
            w as nat == self.policy().width_for(self@.len()),
            8 <= w <= 64,
    {
        self.policy.code_width(self.entries.len() as u64)
    }

    /// Whether one more entry fits.
    pub fn has_room(&self) -> (r: bool)
        requires
            self.wf(),
        ensures
            r == self.policy().has_room(self@.len()),
    {
        match self.policy.limit_entries() {
            None => true,
            Some(l) => (self.entries.len() as u64) < l,
        }
    }

    /// The phrase of `code`, if the dictionary holds one.
    pub fn lookup_backward(&self, code: u64) -> (r: Option<Vec<u8>>)
        requires
            self.wf(),
        ensures
            r is Some <==> code < self@.len(),
            r is Some ==> r.unwrap()@ == self@[code as int],
    {
        if code < self.entries.len() as u64 {
            Some(copy_bytes(&self.entries[code as usize]))
        } else {
            None
        }
    }

    /// Goes back to the 256 single-byte phrases when the policy resets and the
    /// dictionary is full; tells whether it did.
    pub fn maybe_reset(&mut self) -> (r: bool)
        requires
            old(self).wf(),
        ensures
            final(self).wf(),
            final(self).policy() == old(self).policy(),
            final(self)@ == dict_after_reset(old(self).policy(), old(self)@),
            r == (old(self).policy().resets() && old(self)@.len() == old(self).policy().limit()),
    {
        if self.policy.resets_when_full() {
            match self.policy.limit_entries() {
                Some(l) => {
                    if self.entries.len() as u64 == l {
                        self.entries = initial_entries();
                        proof {
                            crate::policy::lemma_two_pow_values();
                            crate::bits::lemma_two_pow_monotonic(8, self.policy.max_width());
                        }
                        return true;
                    }
                },
                None => {},
            }
        }
        false
    }

    /// Registers `phrase` under the next code if there is room, and returns that code.
    pub fn insert(&mut self, phrase: Vec<u8>) -> (r: Option<u64>)
        requires
            old(self).wf(),
            phrase@.len() > 0,
            old(self)@.len() + 1 < 0x4000_0000_0000_0000,
        ensures
            final(self).wf(),
            final(self).policy() == old(self).policy(),
            final(self)@ == dict_with(old(self).policy(), old(self)@, phrase@),
            r == (if old(self).policy().has_room(old(self)@.len()) {
                Some(old(self)@.len() as u64)
            } else {
                None::<u64>
            }),
    {
        let n = self.entries.len() as u64;
        if self.has_room() {
            let ghost before = self@;
            self.entries.push(phrase);
            proof {
                assert(self@ =~= before.push(phrase@));
                assert forall|i: int| 0 <= i < 256 implies #[trigger] self@[i] == seq![i as u8] by {
                    assert(before[i] == seq![i as u8]);
                }
                assert forall|i: int| 0 <= i < self@.len() implies #[trigger] self@[i].len() > 0 by {
                    if i < before.len() {
                        assert(before[i].len() > 0);
                    }
                }
            }
            Some(n)
        } else {
            None
        }
    }
}

} // verus!
