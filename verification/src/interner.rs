//! Deduplication of texts into stable handles.
use vstd::prelude::*;
use crate::value::StringHandle;

verus! {

/// No text occurs twice.
pub open spec fn distinct(s: Seq<Seq<u8>>) -> bool {
    forall|i: int, j: int| 0 <= i < j < s.len() ==> s[i] != s[j]
}

/// `longer` holds every text of `shorter` under the same handle.
pub open spec fn extends(longer: Seq<Seq<u8>>, shorter: Seq<Seq<u8>>) -> bool {
    shorter.len() <= longer.len() && forall|i: int|
        0 <= i < shorter.len() ==> longer[i] == shorter[i]
}

/// The interned texts after `text` has been interned: unchanged when it is
/// already there, one longer otherwise.
pub open spec fn interned(s: Seq<Seq<u8>>, text: Seq<u8>) -> Seq<Seq<u8>> {
    if s.contains(text) {
        s
    } else {
        s.push(text)
    }
}

/// The handle that interning `text` gives: where it already stands, or the
/// next free index.
pub open spec fn handle_of(s: Seq<Seq<u8>>, text: Seq<u8>) -> int {
    if s.contains(text) {
        s.index_of(text)
    } else {
        s.len() as int
    }
}

/// An append-only table of distinct texts; a handle is an index into it.
#[derive(Debug)]
pub struct Interner {
    strings: Vec<Vec<u8>>,
}

impl View for Interner {
    type V = Seq<Seq<u8>>;

    closed spec fn view(&self) -> Seq<Seq<u8>> {
        Seq::new(self.strings@.len(), |i: int| self.strings@[i]@)
    }
}

/// Whether two byte strings hold the same bytes.
pub fn bytes_equal(a: &Vec<u8>, b: &Vec<u8>) -> (r: bool)
    ensures
        r == (a@ == b@),
{
    if a.len() != b.len() {
        return false;
    }
    let mut i: usize = 0;
    while i < a.len()
        invariant
            i <= a.len(),
            a.len() == b.len(),
            forall|k: int| 0 <= k < i ==> a@[k] == b@[k],
        decreases a.len() - i,
    {
        if a[i] != b[i] {
            return false;
        }
        i += 1;
    }
    assert(a@ =~= b@);
    true
}

impl Interner {
    /// The invariant: the table holds no text twice.
    pub open spec fn wf(&self) -> bool {
        distinct(self@)
    }

    pub fn new() -> (r: Interner)
        ensures
            r.wf(),
            r@ == Seq::<Seq<u8>>::empty(),
    {
        let r = Interner { strings: Vec::new() };
        assert(r@ =~= Seq::<Seq<u8>>::empty());
        r
    }

    /// Number of texts interned so far.
    pub fn len(&self) -> (n: usize)
        ensures
            n == self@.len(),
    {
        self.strings.len()
    }

    /// Returns the handle of `text`, adding the text when it is new.
    pub fn intern_string(&mut self, text: Vec<u8>) -> (h: StringHandle)
        requires
            old(self).wf(),
        ensures
            final(self).wf(),
            final(self)@ == interned(old(self)@, text@),
            h.0 == handle_of(old(self)@, text@),
            h.0 < final(self)@.len(),
            final(self)@[h.0 as int] == text@,
    {
        let mut i: usize = 0;
        while i < self.strings.len()
            invariant
                i <= self.strings.len(),
                *self == *old(self),
                distinct(self@),
                forall|k: int| 0 <= k < i ==> self@[k] != text@,
            decreases self.strings.len() - i,
        {
            if bytes_equal(&self.strings[i], &text) {
                proof {
                    assert(self@[i as int] == text@);
                    assert(self@.contains(text@));
                    let j = self@.index_of(text@);
                    assert(self@[j] == text@);
                    assert(j == i);
                }
                return StringHandle(i);
            }
            i += 1;
        }
        proof {
            assert(!self@.contains(text@)) by {
                if self@.contains(text@) {
                    let j = self@.index_of(text@);
                    assert(self@[j] == text@);
                }
            }
        }
        let ghost before = self@;
        self.strings.push(text);
        assert(self@ =~= before.push(text@));
        StringHandle(i)
    }

    /// The text behind a handle that this interner issued.
    pub fn lookup(&self, handle: StringHandle) -> (text: &Vec<u8>)
        requires
            handle.0 < self@.len(),
        ensures
            text@ == self@[handle.0 as int],
    {
        &self.strings[handle.0]
    }
}

/// The handle that interning gives lies in the table and denotes the text,
/// and the table keeps every text it had.
pub proof fn lemma_handle_of(s: Seq<Seq<u8>>, text: Seq<u8>)
    ensures
        0 <= handle_of(s, text) < interned(s, text).len(),
        interned(s, text)[handle_of(s, text)] == text,
        extends(interned(s, text), s),
{
    if s.contains(text) {
        let j = s.index_of(text);
        assert(s[j] == text);
    }
}

/// Interning is idempotent: a second interning of the same text changes
/// nothing and returns the same handle.
pub proof fn lemma_intern_idempotent(s: Seq<Seq<u8>>, text: Seq<u8>)
    requires
        distinct(s),
    ensures
        interned(interned(s, text), text) == interned(s, text),
        handle_of(interned(s, text), text) == handle_of(s, text),
{
    let t = interned(s, text);
    if s.contains(text) {
    } else {
        assert(t[s.len() as int] == text);
        assert(t.contains(text));
        lemma_interned_distinct(s, text);
        let j = t.index_of(text);
        assert(t[j] == text);
        assert(j == s.len());
    }
}

/// Interning keeps the table free of duplicates and never moves or drops a
/// text: every handle issued before stays valid and keeps its text.
pub proof fn lemma_interned_distinct(s: Seq<Seq<u8>>, text: Seq<u8>)
    requires
        distinct(s),
    ensures
        distinct(interned(s, text)),
        s.len() <= interned(s, text).len(),
        forall|i: int| 0 <= i < s.len() ==> interned(s, text)[i] == s[i],
        0 <= handle_of(s, text) < interned(s, text).len(),
        interned(s, text)[handle_of(s, text)] == text,
{
    let t = interned(s, text);
    if !s.contains(text) {
        assert forall|i: int, j: int| 0 <= i < j < t.len() implies t[i] != t[j] by {
            if j == s.len() {
                if t[i] == t[j] {
                    assert(s[i] == text);
                    assert(s.contains(text));
                }
            }
        }
    }
}

/// Two handles are equal exactly when their texts are: interning two texts
/// one after the other gives the same handle iff the texts are the same.
pub proof fn lemma_handles_equal_iff_texts_equal(s: Seq<Seq<u8>>, a: Seq<u8>, b: Seq<u8>)
    requires
        distinct(s),
    ensures
        handle_of(s, a) == handle_of(interned(s, a), b) <==> a == b,
{
    lemma_interned_distinct(s, a);
    let t = interned(s, a);
    lemma_interned_distinct(t, b);
    lemma_intern_idempotent(s, a);
    let u = interned(t, b);
    let ha = handle_of(s, a);
    let hb = handle_of(t, b);
    if ha == hb {
        assert(u[hb] == b);
        assert(t[ha] == a);
        assert(u[ha] == t[ha]);
    }
}

} // verus!
