//! Little-endian records of the model file.

use vstd::bytes::{u32_from_le_bytes, u32_to_le_bytes, u64_from_le_bytes, u64_to_le_bytes};
use vstd::prelude::*;

use crate::backends::rosaplus::nodes::CountNode;
use crate::backends::rosaplus::sam::SamEdge;
use crate::backends::rosaplus::tallies::LmState;

verus! {

/// Why a model file cannot be read.
#[derive(Clone, Copy, Debug, PartialEq, Eq, Structural)]
pub enum ImageError {
    UnexpectedEnd,
    BadMagic,
    LengthOverflow,
    BadSmallN,
    BadTextStatesLen,
    BadTextStatesEntry,
    BadLast,
    BadLink,
    BadSmallEdge,
    BadEdgeHead,
    BadEdgeTarget,
    BadEdgeNext,
    BadLmHead,
    BadLmLastNode,
    BadLmNext,
}

/// A value that stands in the model file as a run of bytes.
pub trait Wire: Sized {
    /// Its bytes.
    spec fn wire(&self) -> Seq<u8>;

    /// The value at the front of `s` and the number of its bytes.
    spec fn front(s: Seq<u8>) -> Result<(Self, int), ImageError>;

    /// Whether the bytes determine the value.
    spec fn is_plain(&self) -> bool;

    /// What is written is read back.
    proof fn lemma_front_of_wire(&self, rest: Seq<u8>)
        requires
            self.is_plain(),
        ensures
            Self::front(self.wire() + rest) == Ok::<(Self, int), ImageError>(
                (*self, self.wire().len() as int),
            ),
    ;

    /// A value takes no more bytes than there are.
    proof fn lemma_front_len(s: Seq<u8>)
        ensures
            Self::front(s) matches Ok((v, k)) ==> 0 <= k <= s.len(),
    ;

    /// Appends the bytes.
    fn put(&self, out: &mut Vec<u8>)
        ensures
            final(out)@ == old(out)@ + self.wire(),
    ;

    /// Reads the value at `pos` and moves on behind it.
    fn take(bytes: &[u8], pos: usize) -> (r: Result<(Self, usize), ImageError>)
        requires
            pos <= bytes@.len(),
        ensures
            match Self::front(bytes@.skip(pos as int)) {
                Ok((v, k)) => r matches Ok((x, at)) && x == v && at == pos + k && at
                    <= bytes@.len(),
                Err(e) => r matches Err(x) && x == e,
            },
    ;
}

/// Appends `tail`.
pub fn put_all(out: &mut Vec<u8>, tail: &[u8])
    ensures
        final(out)@ == old(out)@ + tail@,
{
    let n: usize = tail.len();
    let mut i: usize = 0;
    proof {
        assert(out@ =~= old(out)@ + tail@.take(0));
    }
    while i < n
        invariant
            i <= n == tail@.len(),
            out@ == old(out)@ + tail@.take(i as int),
        decreases n - i,
    {
        out.push(tail[i]);
        i += 1;
        proof {
            assert(out@ =~= old(out)@ + tail@.take(i as int));
        }
    }
    proof {
        assert(tail@.take(n as int) =~= tail@);
    }
}

/// `len` bytes from `pos` on, if there are as many.
fn window(bytes: &[u8], pos: usize, len: usize) -> (w: Option<Vec<u8>>)
    requires
        pos <= bytes@.len(),
    ensures
        w.is_some() == (len <= bytes@.len() - pos),
        w matches Some(v) ==> v@ == bytes@.skip(pos as int).take(len as int),
{
    let n: usize = bytes.len();
    if n - pos < len {
        return None;
    }
    let mut v: Vec<u8> = Vec::new();
    while v.len() < len
        invariant
            n == bytes@.len(),
            pos <= n,
            len <= n - pos,
            v@.len() <= len,
            forall|i: int| 0 <= i < v@.len() ==> #[trigger] v@[i] == bytes@[pos + i],
        decreases len - v@.len(),
    {
        v.push(bytes[pos + v.len()]);
    }
    proof {
        assert(v@ =~= bytes@.skip(pos as int).take(len as int));
    }
    Some(v)
}

impl Wire for u8 {
    open spec fn wire(&self) -> Seq<u8> {
        seq![*self]
    }

    open spec fn front(s: Seq<u8>) -> Result<(u8, int), ImageError> {
        if s.len() < 1 {
            Err(ImageError::UnexpectedEnd)
        } else {
            Ok((s[0], 1))
        }
    }

    open spec fn is_plain(&self) -> bool {
        true
    }

    proof fn lemma_front_of_wire(&self, rest: Seq<u8>) {
    }

    proof fn lemma_front_len(s: Seq<u8>) {
    }

    fn put(&self, out: &mut Vec<u8>) {
        out.push(*self);
        proof {
            assert(out@ =~= old(out)@ + self.wire());
        }
    }

    fn take(bytes: &[u8], pos: usize) -> (r: Result<(u8, usize), ImageError>) {
        if pos >= bytes.len() {
            return Err(ImageError::UnexpectedEnd);
        }
        Ok((bytes[pos], pos + 1))
    }
}

impl Wire for u32 {
    open spec fn wire(&self) -> Seq<u8> {
        vstd::bytes::spec_u32_to_le_bytes(*self)
    }

    open spec fn front(s: Seq<u8>) -> Result<(u32, int), ImageError> {
        if s.len() < 4 {
            Err(ImageError::UnexpectedEnd)
        } else {
            Ok((vstd::bytes::spec_u32_from_le_bytes(s.take(4)), 4))
        }
    }

    open spec fn is_plain(&self) -> bool {
        true
    }

    proof fn lemma_front_of_wire(&self, rest: Seq<u8>) {
        vstd::bytes::lemma_auto_spec_u32_to_from_le_bytes();
        assert((self.wire() + rest).take(4) =~= self.wire());
    }

    proof fn lemma_front_len(s: Seq<u8>) {
    }

    fn put(&self, out: &mut Vec<u8>) {
        let b = u32_to_le_bytes(*self);
        put_all(out, b.as_slice());
    }

    fn take(bytes: &[u8], pos: usize) -> (r: Result<(u32, usize), ImageError>) {
        let n: usize = bytes.len();
        match window(bytes, pos, 4) {
            Some(b) => Ok((u32_from_le_bytes(b.as_slice()), pos + 4)),
            None => Err(ImageError::UnexpectedEnd),
        }
    }
}

impl Wire for u64 {
    open spec fn wire(&self) -> Seq<u8> {
        vstd::bytes::spec_u64_to_le_bytes(*self)
    }

    open spec fn front(s: Seq<u8>) -> Result<(u64, int), ImageError> {
        if s.len() < 8 {
            Err(ImageError::UnexpectedEnd)
        } else {
            Ok((vstd::bytes::spec_u64_from_le_bytes(s.take(8)), 8))
        }
    }

    open spec fn is_plain(&self) -> bool {
        true
    }

    proof fn lemma_front_of_wire(&self, rest: Seq<u8>) {
        vstd::bytes::lemma_auto_spec_u64_to_from_le_bytes();
        assert((self.wire() + rest).take(8) =~= self.wire());
    }

    proof fn lemma_front_len(s: Seq<u8>) {
    }

    fn put(&self, out: &mut Vec<u8>) {
        let b = u64_to_le_bytes(*self);
        put_all(out, b.as_slice());
    }

    fn take(bytes: &[u8], pos: usize) -> (r: Result<(u64, usize), ImageError>) {
        let n: usize = bytes.len();
        match window(bytes, pos, 8) {
            Some(b) => Ok((u64_from_le_bytes(b.as_slice()), pos + 8)),
            None => Err(ImageError::UnexpectedEnd),
        }
    }
}

impl Wire for i32 {
    open spec fn wire(&self) -> Seq<u8> {
        (*self as u32).wire()
    }

    open spec fn front(s: Seq<u8>) -> Result<(i32, int), ImageError> {
        match u32::front(s) {
            Ok((x, k)) => Ok((x as i32, k)),
            Err(e) => Err(e),
        }
    }

    open spec fn is_plain(&self) -> bool {
        true
    }

    proof fn lemma_front_of_wire(&self, rest: Seq<u8>) {
        let x = *self;
        (x as u32).lemma_front_of_wire(rest);
        assert((x as u32) as i32 == x) by (bit_vector);
    }

    proof fn lemma_front_len(s: Seq<u8>) {
    }

    fn put(&self, out: &mut Vec<u8>) {
        (*self as u32).put(out);
    }

    fn take(bytes: &[u8], pos: usize) -> (r: Result<(i32, usize), ImageError>) {
        match u32::take(bytes, pos) {
            Ok((x, at)) => Ok((x as i32, at)),
            Err(e) => Err(e),
        }
    }
}

impl Wire for i64 {
    open spec fn wire(&self) -> Seq<u8> {
        (*self as u64).wire()
    }

    open spec fn front(s: Seq<u8>) -> Result<(i64, int), ImageError> {
        match u64::front(s) {
            Ok((x, k)) => Ok((x as i64, k)),
            Err(e) => Err(e),
        }
    }

    open spec fn is_plain(&self) -> bool {
        true
    }

    proof fn lemma_front_of_wire(&self, rest: Seq<u8>) {
        let x = *self;
        (x as u64).lemma_front_of_wire(rest);
        assert((x as u64) as i64 == x) by (bit_vector);
    }

    proof fn lemma_front_len(s: Seq<u8>) {
    }

    fn put(&self, out: &mut Vec<u8>) {
        (*self as u64).put(out);
    }

    fn take(bytes: &[u8], pos: usize) -> (r: Result<(i64, usize), ImageError>) {
        match u64::take(bytes, pos) {
            Ok((x, at)) => Ok((x as i64, at)),
            Err(e) => Err(e),
        }
    }
}

// ---------------------------------------------------------------------------------------
// Pairs and lists
// ---------------------------------------------------------------------------------------

impl<A: Wire, B: Wire> Wire for (A, B) {
    open spec fn wire(&self) -> Seq<u8> {
        self.0.wire() + self.1.wire()
    }

    open spec fn front(s: Seq<u8>) -> Result<((A, B), int), ImageError> {
        match A::front(s) {
            Err(e) => Err(e),
            Ok((a, j)) => match B::front(s.skip(j)) {
                Err(e) => Err(e),
                Ok((b, k)) => Ok(((a, b), j + k)),
            },
        }
    }

    open spec fn is_plain(&self) -> bool {
        self.0.is_plain() && self.1.is_plain()
    }

    proof fn lemma_front_of_wire(&self, rest: Seq<u8>) {
        let a = self.0.wire();
        let b = self.1.wire();
        self.0.lemma_front_of_wire(b + rest);
        self.1.lemma_front_of_wire(rest);
        assert(a + (b + rest) =~= (a + b) + rest);
        assert((a + (b + rest)).skip(a.len() as int) =~= b + rest);
    }

    proof fn lemma_front_len(s: Seq<u8>) {
        A::lemma_front_len(s);
        if let Ok((a, j)) = A::front(s) {
            B::lemma_front_len(s.skip(j));
        }
    }

    fn put(&self, out: &mut Vec<u8>) {
        self.0.put(out);
        self.1.put(out);
        proof {
            assert(out@ =~= old(out)@ + (self.0.wire() + self.1.wire()));
        }
    }

    fn take(bytes: &[u8], pos: usize) -> (r: Result<((A, B), usize), ImageError>) {
        proof {
            A::lemma_front_len(bytes@.skip(pos as int));
        }
        match A::take(bytes, pos) {
            Err(e) => Err(e),
            Ok((a, at)) => {
                proof {
                    assert(bytes@.skip(pos as int).skip(at - pos) =~= bytes@.skip(at as int));
                    B::lemma_front_len(bytes@.skip(at as int));
                }
                match B::take(bytes, at) {
                    Err(e) => Err(e),
                    Ok((b, end)) => Ok(((a, b), end)),
                }
            },
        }
    }
}

/// Bytes of a list of values.
pub open spec fn list_wire<T: Wire>(vs: Seq<T>) -> Seq<u8>
    decreases vs.len(),
{
    if vs.len() == 0 {
        Seq::empty()
    } else {
        list_wire(vs.drop_last()) + vs.last().wire()
    }
}

/// The `n` values at the front of `s` and the number of their bytes.
pub open spec fn list_front<T: Wire>(s: Seq<u8>, n: nat) -> Result<(Seq<T>, int), ImageError>
    decreases n,
{
    if n == 0 {
        Ok((Seq::empty(), 0))
    } else {
        match list_front::<T>(s, (n - 1) as nat) {
            Err(e) => Err(e),
            Ok((vs, k)) => match T::front(s.skip(k)) {
                Err(e) => Err(e),
                Ok((v, j)) => Ok((vs.push(v), k + j)),
            },
        }
    }
}

/// Whether the bytes of every value determine it.
pub open spec fn all_plain<T: Wire>(vs: Seq<T>) -> bool {
    forall|i: int| 0 <= i < vs.len() ==> (#[trigger] vs[i]).is_plain()
}

/// A list that is written is read back.
pub proof fn lemma_list_front_of_wire<T: Wire>(vs: Seq<T>, rest: Seq<u8>)
    requires
        all_plain(vs),
    ensures
        list_front::<T>(list_wire(vs) + rest, vs.len()) == Ok::<(Seq<T>, int), ImageError>(
            (vs, list_wire(vs).len() as int),
        ),
    decreases vs.len(),
{
    if vs.len() > 0 {
        let init = vs.drop_last();
        let last = vs.last();
        assert(vs[vs.len() - 1].is_plain());
        assert forall|i: int| 0 <= i < init.len() implies (#[trigger] init[i]).is_plain() by {
            assert(vs[i].is_plain());
        }
        lemma_list_front_of_wire(init, last.wire() + rest);
        last.lemma_front_of_wire(rest);
        let a = list_wire(init);
        let b = last.wire();
        assert(list_wire(vs) + rest =~= a + (b + rest));
        assert((a + (b + rest)).skip(a.len() as int) =~= b + rest);
        assert(init.push(last) =~= vs);
    } else {
        assert(list_wire(vs) + rest =~= rest);
        assert(vs =~= Seq::empty());
    }
}

/// A list that fails fails whatever follows.
proof fn lemma_list_front_err<T: Wire>(s: Seq<u8>, i: nat, n: nat)
    requires
        i <= n,
        list_front::<T>(s, i) is Err,
    ensures
        list_front::<T>(s, n) == list_front::<T>(s, i),
    decreases n,
{
    if i < n {
        lemma_list_front_err::<T>(s, i, (n - 1) as nat);
    }
}

pub proof fn lemma_list_front_len<T: Wire>(s: Seq<u8>, n: nat)
    ensures
        list_front::<T>(s, n) matches Ok((vs, k)) ==> 0 <= k <= s.len() && vs.len() == n,
    decreases n,
{
    if n > 0 {
        lemma_list_front_len::<T>(s, (n - 1) as nat);
        if let Ok((vs, k)) = list_front::<T>(s, (n - 1) as nat) {
            T::lemma_front_len(s.skip(k));
        }
    }
}

/// Appends the bytes of a list.
pub fn put_list<T: Wire>(vs: &Vec<T>, out: &mut Vec<u8>)
    ensures
        final(out)@ == old(out)@ + list_wire(vs@),
{
    let n: usize = vs.len();
    let mut i: usize = 0;
    proof {
        assert(out@ =~= old(out)@ + list_wire(vs@.take(0)));
    }
    while i < n
        invariant
            i <= n == vs@.len(),
            out@ == old(out)@ + list_wire(vs@.take(i as int)),
        decreases n - i,
    {
        vs[i].put(out);
        i += 1;
        proof {
            assert(vs@.take(i as int).drop_last() =~= vs@.take(i - 1));
            assert(out@ =~= old(out)@ + list_wire(vs@.take(i as int)));
        }
    }
    proof {
        assert(vs@.take(n as int) =~= vs@);
    }
}

/// Reads `n` values from `pos` on.
pub fn take_list<T: Wire>(bytes: &[u8], pos: usize, n: usize) -> (r: Result<
    (Vec<T>, usize),
    ImageError,
>)
    requires
        pos <= bytes@.len(),
    ensures
        match list_front::<T>(bytes@.skip(pos as int), n as nat) {
            Ok((vs, k)) => r matches Ok((v, at)) && v@ == vs && at == pos + k && at <= bytes@.len(),
            Err(e) => r matches Err(x) && x == e,
        },
{
    let ghost s = bytes@.skip(pos as int);
    let mut vs: Vec<T> = Vec::new();
    let mut at: usize = pos;
    let mut i: usize = 0;
    while i < n
        invariant
            i <= n,
            pos <= at <= bytes@.len(),
            s == bytes@.skip(pos as int),
            list_front::<T>(s, i as nat) == Ok::<(Seq<T>, int), ImageError>((vs@, at - pos)),
        decreases n - i,
    {
        proof {
            assert(s.skip(at - pos) =~= bytes@.skip(at as int));
            T::lemma_front_len(bytes@.skip(at as int));
        }
        match T::take(bytes, at) {
            Err(e) => {
                proof {
                    assert(list_front::<T>(s, (i + 1) as nat) is Err);
                    lemma_list_front_err::<T>(s, (i + 1) as nat, n as nat);
                }
                return Err(e);
            },
            Ok((v, next)) => {
                vs.push(v);
                at = next;
            },
        }
        i += 1;
    }
    Ok((vs, at))
}

// ---------------------------------------------------------------------------------------
// Records
// ---------------------------------------------------------------------------------------

impl Wire for SamEdge {
    open spec fn wire(&self) -> Seq<u8> {
        (self.ch, (self.to, self.next)).wire()
    }

    open spec fn front(s: Seq<u8>) -> Result<(SamEdge, int), ImageError> {
        match <(u32, (i32, u32))>::front(s) {
            Ok(((ch, (to, next)), k)) => Ok((SamEdge { ch, to, next }, k)),
            Err(e) => Err(e),
        }
    }

    open spec fn is_plain(&self) -> bool {
        true
    }

    proof fn lemma_front_of_wire(&self, rest: Seq<u8>) {
        (self.ch, (self.to, self.next)).lemma_front_of_wire(rest);
    }

    proof fn lemma_front_len(s: Seq<u8>) {
        <(u32, (i32, u32))>::lemma_front_len(s);
    }

    fn put(&self, out: &mut Vec<u8>) {
        (self.ch, (self.to, self.next)).put(out);
    }

    fn take(bytes: &[u8], pos: usize) -> (r: Result<(SamEdge, usize), ImageError>) {
        match <(u32, (i32, u32))>::take(bytes, pos) {
            Ok(((ch, (to, next)), at)) => Ok((SamEdge { ch, to, next }, at)),
            Err(e) => Err(e),
        }
    }
}

impl Wire for LmState {
    open spec fn wire(&self) -> Seq<u8> {
        (self.head, (self.total_n, (self.types_t, (self.last_sym, self.last_node)))).wire()
    }

    open spec fn front(s: Seq<u8>) -> Result<(LmState, int), ImageError> {
        match <(u32, (u64, (u32, (u32, u32))))>::front(s) {
            Ok(((head, (total_n, (types_t, (last_sym, last_node)))), k)) => Ok(
                (LmState { head, total_n, types_t, last_sym, last_node }, k),
            ),
            Err(e) => Err(e),
        }
    }

    open spec fn is_plain(&self) -> bool {
        true
    }

    proof fn lemma_front_of_wire(&self, rest: Seq<u8>) {
        (self.head, (self.total_n, (self.types_t, (self.last_sym, self.last_node)))).lemma_front_of_wire(rest);
    }

    proof fn lemma_front_len(s: Seq<u8>) {
        <(u32, (u64, (u32, (u32, u32))))>::lemma_front_len(s);
    }

    fn put(&self, out: &mut Vec<u8>) {
        (self.head, (self.total_n, (self.types_t, (self.last_sym, self.last_node)))).put(out);
    }

    fn take(bytes: &[u8], pos: usize) -> (r: Result<(LmState, usize), ImageError>) {
        match <(u32, (u64, (u32, (u32, u32))))>::take(bytes, pos) {
            Ok(((head, (total_n, (types_t, (last_sym, last_node)))), at)) => Ok(
                (LmState { head, total_n, types_t, last_sym, last_node }, at),
            ),
            Err(e) => Err(e),
        }
    }
}

impl Wire for CountNode {
    open spec fn wire(&self) -> Seq<u8> {
        (self.sym_idx, (self.cnt, self.next)).wire()
    }

    open spec fn front(s: Seq<u8>) -> Result<(CountNode, int), ImageError> {
        match <(u32, (u64, u32))>::front(s) {
            Ok(((sym_idx, (cnt, next)), k)) => Ok((CountNode { sym_idx, cnt, next }, k)),
            Err(e) => Err(e),
        }
    }

    open spec fn is_plain(&self) -> bool {
        true
    }

    proof fn lemma_front_of_wire(&self, rest: Seq<u8>) {
        (self.sym_idx, (self.cnt, self.next)).lemma_front_of_wire(rest);
    }

    proof fn lemma_front_len(s: Seq<u8>) {
        <(u32, (u64, u32))>::lemma_front_len(s);
    }

    fn put(&self, out: &mut Vec<u8>) {
        (self.sym_idx, (self.cnt, self.next)).put(out);
    }

    fn take(bytes: &[u8], pos: usize) -> (r: Result<(CountNode, usize), ImageError>) {
        match <(u32, (u64, u32))>::take(bytes, pos) {
            Ok(((sym_idx, (cnt, next)), at)) => Ok((CountNode { sym_idx, cnt, next }, at)),
            Err(e) => Err(e),
        }
    }
}

} // verus!
