use vstd::prelude::*;

verus! {

/// The keys held down, each once, in the order they were pressed.
pub struct PressedKeys {
    keys: Vec<u32>,
}

impl View for PressedKeys {
    type V = Seq<u32>;

    closed spec fn view(&self) -> Seq<u32> {
        self.keys@
    }
}

impl PressedKeys {
    /// No key is held twice.
    pub open spec fn wf(&self) -> bool {
        self@.no_duplicates()
    }

    /// No key held.
    pub fn new() -> (r: Self)
        ensures
            r.wf(),
            r@ == Seq::<u32>::empty(),
    {
        PressedKeys { keys: Vec::new() }
    }

    /// Whether `key` is held.
    pub fn contains(&self, key: u32) -> (r: bool)
        ensures
            r == self@.contains(key),
    {
        let mut i: usize = 0;
        while i < self.keys.len()
            invariant
                i <= self@.len(),
                forall|j: int| 0 <= j < i ==> self@[j] != key,
            decreases self.keys.len() - i,
        {
            if self.keys[i] == key {
                return true;
            }
            i += 1;
        }
        false
    }

    /// Records `key` as held; a key already held is not added again.
    pub fn press(&mut self, key: u32)
        requires
            old(self).wf(),
        ensures
            final(self).wf(),
            final(self)@ == if old(self)@.contains(key) {
                old(self)@
            } else {
                old(self)@.push(key)
            },
    {
        if !self.contains(key) {
            self.keys.push(key);
            proof {
                assert forall|i: int, j: int|
                    0 <= i < self@.len() && 0 <= j < self@.len() && i != j implies self@[i] != self@[j] by {
                    if i == self@.len() - 1 {
                        assert(old(self)@[j] == self@[j]);
                    } else if j == self@.len() - 1 {
                        assert(old(self)@[i] == self@[i]);
                    }
                }
            }
        }
    }

    /// Records `key` as released; the other keys keep their order.
    pub fn release(&mut self, key: u32)
        requires
            old(self).wf(),
        ensures
            final(self).wf(),
            final(self)@ == old(self)@.filter(|k: u32| k != key),
    {
        let ghost pred = |k: u32| k != key;
        let mut kept: Vec<u32> = Vec::new();
        let mut i: usize = 0;
        while i < self.keys.len()
            invariant
                i <= self@.len(),
                self@ == old(self)@,
                pred == (|k: u32| k != key),
                kept@ == self@.take(i as int).filter(pred),
            decreases self.keys.len() - i,
        {
            let k = self.keys[i];
            proof {
                assert(self@.take(i + 1) =~= self@.take(i as int).push(k));
                self@.take(i as int).lemma_filter_push(k, pred);
            }
            if k != key {
                kept.push(k);
            }
            i += 1;
        }
        proof {
            assert(self@.take(self@.len() as int) =~= self@);
            self@.filter_lemma(pred);
            assert forall|a: int, b: int|
                0 <= a < kept@.len() && 0 <= b < kept@.len() && a != b implies kept@[a] != kept@[b] by {
                lemma_filter_keeps_distinct(self@, pred, a, b);
            }
        }
        self.keys = kept;
    }

    /// The held keys, in the order they were pressed.
    pub fn keys(&self) -> (r: &Vec<u32>)
        ensures
            r@ == self@,
    {
        &self.keys
    }
}

/// Filtering a sequence without duplicates leaves none.
proof fn lemma_filter_keeps_distinct(s: Seq<u32>, pred: spec_fn(u32) -> bool, a: int, b: int)
    requires
        s.no_duplicates(),
        0 <= a < s.filter(pred).len(),
        0 <= b < s.filter(pred).len(),
        a != b,
    ensures
        s.filter(pred)[a] != s.filter(pred)[b],
    decreases s.len(),
{
    reveal(Seq::filter);
    if s.len() > 0 {
        let rest = s.drop_last();
        assert(rest.no_duplicates());
        let f = rest.filter(pred);
        if pred(s.last()) {
            assert(s.filter(pred) == f.push(s.last()));
            if a < f.len() && b < f.len() {
                lemma_filter_keeps_distinct(rest, pred, a, b);
            } else {
                let i = if a < f.len() { a } else { b };
                assert(f.contains(f[i]));
                rest.lemma_filter_contains_rev(pred, f[i]);
                assert(!rest.contains(s.last())) by {
                    if rest.contains(s.last()) {
                        let j = choose|j: int| 0 <= j < rest.len() && rest[j] == s.last();
                        assert(s[j] == s[s.len() - 1]);
                    }
                }
            }
        } else {
            assert(s.filter(pred) == f);
            lemma_filter_keeps_distinct(rest, pred, a, b);
        }
    }
}

} // verus!
