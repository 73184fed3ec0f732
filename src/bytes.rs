use vstd::prelude::*;
use vstd::string::StringSliceAdditionalSpecFns;
use vstd::utf8::{decode_utf8, encode_utf8, valid_utf8};

use crate::arena::Arena;
use crate::convert::{FromOcamlRep, OcamlRep};
use crate::error::FromError;
use crate::repr::{denote, Repr};
use crate::value::{Value, STRING_TAG};

verus! {

/// The low `n` bytes of `w`, least significant first.
pub open spec fn word_bytes(w: int, n: nat) -> Seq<u8>
    decreases n,
{
    if n == 0 {
        Seq::empty()
    } else {
        seq![(w % 256) as u8] + word_bytes(w / 256, (n - 1) as nat)
    }
}

/// The bytes of a run of words, as they lie in memory (little-endian).
pub open spec fn words_bytes(ws: Seq<u64>) -> Seq<u8>
    decreases ws.len(),
{
    if ws.len() == 0 {
        Seq::empty()
    } else {
        words_bytes(ws.drop_last()) + word_bytes(ws.last() as int, 8)
    }
}

/// Number of words of a byte string of `len` bytes: room for the bytes and
/// one more byte that records the padding.
pub open spec fn string_words(len: nat) -> nat {
    len / 8 + 1
}

/// The bytes of a string block for `b`: `b`, zero padding, then the padding
/// count in the last byte.
pub open spec fn padded(b: Seq<u8>) -> Seq<u8> {
    let pad = (string_words(b.len()) * 8 - 1 - b.len()) as nat;
    b + Seq::new(pad, |i: int| 0u8) + seq![pad as u8]
}

/// `r` is a string block holding the bytes `b`.
pub open spec fn bytes_encode(b: Seq<u8>, r: Repr) -> bool {
    &&& r is Raw
    &&& r->Raw_tag == STRING_TAG
    &&& r->words.len() == string_words(b.len())
    &&& words_bytes(r->words) == padded(b)
}

/// The bytes held by a string block with these words: all of its bytes but
/// the padding and the padding count.
pub open spec fn bytes_of_words(ws: Seq<u64>) -> Result<Seq<u8>, FromError> {
    let all = words_bytes(ws);
    if ws.len() == 0 {
        Err(FromError::WrongBlockSize { expected: 1, actual: 0 })
    } else if all.last() as int + 1 > all.len() {
        Err(FromError::WrongBlockSize { expected: (all.last() / 8 + 1) as usize, actual: ws.len() as usize })
    } else {
        Ok(all.take(all.len() - all.last() - 1))
    }
}

/// Reading `r` back as a byte string.
pub open spec fn bytes_from_repr(r: Repr) -> Result<Seq<u8>, FromError> {
    match r {
        Repr::Raw { tag, words, .. } => if tag != STRING_TAG {
            Err(FromError::ExpectedBlockTag { expected: STRING_TAG, actual: tag })
        } else {
            bytes_of_words(words)
        },
        Repr::Block { tag, .. } => Err(FromError::ExpectedBlockTag { expected: STRING_TAG, actual: tag }),
        Repr::Int(n) => Err(FromError::ExpectedBlock(n as i64)),
        Repr::Foreign(b) => Err(FromError::ExpectedInt(b)),
    }
}

proof fn lemma_words_bytes_len(ws: Seq<u64>)
    ensures
        words_bytes(ws).len() == 8 * ws.len(),
    decreases ws.len(),
{
    if ws.len() > 0 {
        lemma_words_bytes_len(ws.drop_last());
        lemma_word_bytes_len(ws.last() as int, 8);
    }
}

proof fn lemma_word_bytes_len(w: int, n: nat)
    ensures
        word_bytes(w, n).len() == n,
    decreases n,
{
    if n > 0 {
        lemma_word_bytes_len(w / 256, (n - 1) as nat);
    }
}

pub proof fn lemma_bytes_round_trip(b: Seq<u8>, r: Repr)
    requires
        bytes_encode(b, r),
    ensures
        bytes_from_repr(r) == Ok::<Seq<u8>, FromError>(b),
{
    let all = words_bytes(r->words);
    let pad = (string_words(b.len()) * 8 - 1 - b.len()) as nat;
    assert(all.last() == pad as u8);
    assert(all.take(all.len() - all.last() - 1) =~= b);
}

/// 256 to the power `n`.
pub open spec fn byte_bound(n: nat) -> int
    decreases n,
{
    if n == 0 {
        1
    } else {
        256 * byte_bound((n - 1) as nat)
    }
}

proof fn lemma_byte_bound_mono(n: nat)
    requires
        n <= 8,
    ensures
        byte_bound(n) <= byte_bound(8),
        byte_bound(8) == 0x1_0000_0000_0000_0000,
    decreases 8 - n,
{
    reveal_with_fuel(byte_bound, 9);
    if n < 8 {
        lemma_byte_bound_mono(n + 1);
    }
}

proof fn lemma_word_bytes_step(b: int, w: int, n: nat)
    requires
        0 <= b < 256,
        w >= 0,
    ensures
        word_bytes(b + 256 * w, n + 1) == seq![b as u8] + word_bytes(w, n),
{
    vstd::arithmetic::div_mod::lemma_fundamental_div_mod_converse(b + 256 * w, 256, w, b);
}

/// Pack the eight bytes `p[8k..8k+8]` into one word, least significant first.
fn pack_word(p: &Vec<u8>, k: usize) -> (w: u64)
    requires
        8 * k + 8 <= p@.len(),
        p@.len() <= usize::MAX,
    ensures
        word_bytes(w as int, 8) == p@.subrange(8 * k, 8 * k + 8),
{
    let mut acc: u64 = 0;
    let mut j: usize = 8;
    proof {
        assert(p@.subrange(8 * k + 8, 8 * k + 8) =~= Seq::<u8>::empty());
    }
    while j > 0
        invariant
            j <= 8,
            8 * k + 8 <= p@.len(),
            p@.len() <= usize::MAX,
            acc < byte_bound((8 - j) as nat),
            word_bytes(acc as int, (8 - j) as nat) == p@.subrange(8 * k + j, 8 * k + 8),
        decreases j,
    {
        let b = p[8 * k + j - 1];
        proof {
            lemma_byte_bound_mono((9 - j) as nat);
            assert(byte_bound((9 - j) as nat) == 256 * byte_bound((8 - j) as nat));
            assert(acc * 256 + b < byte_bound((9 - j) as nat)) by (nonlinear_arith)
                requires
                    acc < byte_bound((8 - j) as nat),
                    b < 256,
                    byte_bound((9 - j) as nat) == 256 * byte_bound((8 - j) as nat),
            ;
            lemma_word_bytes_step(b as int, acc as int, (8 - j) as nat);
            assert(seq![b] + p@.subrange(8 * k + j, 8 * k + 8) =~= p@.subrange(8 * k + j - 1, 8 * k + 8));
        }
        acc = acc * 256 + b as u64;
        j = j - 1;
    }
    acc
}

proof fn lemma_words_bytes_of_chunks(ws: Seq<u64>, p: Seq<u8>)
    requires
        p.len() == 8 * ws.len(),
        forall|j: int|
            0 <= j < ws.len() ==> #[trigger] word_bytes(ws[j] as int, 8) == p.subrange(8 * j, 8 * j + 8),
    ensures
        words_bytes(ws) == p,
    decreases ws.len(),
{
    if ws.len() == 0 {
        assert(p =~= Seq::<u8>::empty());
    } else {
        let n = ws.len() - 1;
        let front = p.subrange(0, 8 * n);
        assert forall|j: int| 0 <= j < ws.drop_last().len() implies #[trigger] word_bytes(
            ws.drop_last()[j] as int,
            8,
        ) == front.subrange(8 * j, 8 * j + 8) by {
            assert(ws.drop_last()[j] == ws[j]);
            assert(word_bytes(ws[j] as int, 8) == p.subrange(8 * j, 8 * j + 8));
            assert(front.subrange(8 * j, 8 * j + 8) =~= p.subrange(8 * j, 8 * j + 8));
        }
        lemma_words_bytes_of_chunks(ws.drop_last(), front);
        assert(word_bytes(ws[n] as int, 8) == p.subrange(8 * n, 8 * n + 8));
        assert(front + p.subrange(8 * n, 8 * n + 8) =~= p);
    }
}

/// Append the eight bytes of `w` to `out`, least significant first.
fn unpack_word(out: &mut Vec<u8>, w: u64)
    ensures
        final(out)@ == old(out)@ + word_bytes(w as int, 8),
{
    let mut cur = w;
    let mut i: usize = 0;
    while i < 8
        invariant
            i <= 8,
            old(out)@ + word_bytes(w as int, 8) == out@ + word_bytes(cur as int, (8 - i) as nat),
        decreases 8 - i,
    {
        let ghost before = out@;
        proof {
            assert(word_bytes(cur as int, (8 - i) as nat) == seq![(cur % 256) as u8] + word_bytes(
                cur as int / 256,
                (7 - i) as nat,
            ));
            assert(before + (seq![(cur % 256) as u8] + word_bytes(cur as int / 256, (7 - i) as nat)) =~= before.push((cur % 256) as u8) + word_bytes(cur as int / 256, (7 - i) as nat));
        }
        out.push((cur % 256) as u8);
        cur = cur / 256;
        i = i + 1;
    }
    proof {
        assert(out@ + word_bytes(cur as int, 0) =~= out@);
    }
}

/// Allocate a byte string holding `bytes` in `arena`: `bytes.len() / 8 + 1`
/// words, zero padding, and the padding count in the last byte.
#[verifier::spinoff_prover]
pub fn bytes_to_ocamlrep(bytes: &[u8], arena: &mut Arena) -> (r: Value)
    requires
        old(arena).wf(),
        old(arena).has_room(string_words(bytes@.len()) + 1),
    ensures
        final(arena).wf(),
        final(arena).extends(old(arena)),
        final(arena).used() == old(arena).used() + string_words(bytes@.len()) + 1,
        !(final(arena).denote_value(r) is Foreign),
        bytes_encode(bytes@, final(arena).denote_value(r)),
{
    let len = bytes.len();
    let size = len / 8 + 1;
    let pad = 7 - len % 8;
    let mut p: Vec<u8> = Vec::new();
    let mut i: usize = 0;
    while i < len
        invariant
            i <= len,
            len == bytes@.len(),
            p@ == bytes@.subrange(0, i as int),
        decreases len - i,
    {
        p.push(bytes[i]);
        i = i + 1;
        proof {
            assert(p@ =~= bytes@.subrange(0, i as int));
        }
    }
    let mut z: usize = 0;
    while z < pad
        invariant
            z <= pad,
            pad < 8,
            len == bytes@.len(),
            p@ == bytes@ + Seq::new(z as nat, |i: int| 0u8),
        decreases pad - z,
    {
        p.push(0);
        z = z + 1;
        proof {
            assert(p@ =~= bytes@ + Seq::new(z as nat, |i: int| 0u8));
        }
    }
    p.push(pad as u8);
    proof {
        assert(pad == string_words(len as nat) * 8 - 1 - len);
        assert(p@ =~= padded(bytes@));
    }
    let plen = p.len();
    let mut block = arena.block_with_size_and_tag(size, STRING_TAG);
    let mut k: usize = 0;
    while k < size
        invariant
            k <= size,
            plen == p@.len(),
            p@.len() == 8 * size,
            block.spec_tag() == STRING_TAG,
            block.spec_fields().len() == size,
            forall|j: int|
                0 <= j < k ==> #[trigger] word_bytes(block.spec_fields()[j].0 as int, 8)
                    == p@.subrange(8 * j, 8 * j + 8),
        decreases size - k,
    {
        let w = pack_word(&p, k);
        arena.set_field(&mut block, k, Value(w));
        k = k + 1;
    }
    let ghost ws = block.spec_fields().map_values(|v: Value| v.0);
    let r = arena.build(block);
    proof {
        assert forall|j: int| 0 <= j < ws.len() implies #[trigger] word_bytes(ws[j] as int, 8)
            == p@.subrange(8 * j, 8 * j + 8) by {
            assert(ws[j] == block.spec_fields()[j].0);
        }
        lemma_words_bytes_of_chunks(ws, p@);
    }
    r
}

/// Read a byte string back: a copy of its bytes.
pub fn bytes_from_ocamlrep(value: Value, arena: &Arena) -> (r: Result<Vec<u8>, FromError>)
    requires
        arena.wf(),
    ensures
        match r {
            Ok(b) => bytes_from_repr(arena.denote_value(value)) == Ok::<Seq<u8>, FromError>(b@),
            Err(e) => bytes_from_repr(arena.denote_value(value)) == Err::<Seq<u8>, FromError>(e),
        },
{
    let limit = arena.end_index();
    bytes_from_ocamlrep_below(value, arena, limit)
}

/// Read a byte string lying below word `limit` back: a copy of its bytes.
#[verifier::spinoff_prover]
pub fn bytes_from_ocamlrep_below(value: Value, arena: &Arena, limit: usize) -> (r: Result<Vec<u8>, FromError>)
    requires
        arena.wf(),
    ensures
        match r {
            Ok(b) => bytes_from_repr(denote(arena.mem(), value, limit as int)) == Ok::<Seq<u8>, FromError>(b@),
            Err(e) => bytes_from_repr(denote(arena.mem(), value, limit as int)) == Err::<Seq<u8>, FromError>(e),
        },
{
    if value.is_int() {
        return Err(FromError::ExpectedBlock(value.as_int().unwrap()));
    }
    if !arena.fits_below(value, limit) {
        return Err(FromError::ExpectedInt(value.0));
    }
    let (size, tag) = arena.block_header(value, limit);
    if tag != STRING_TAG {
        return Err(FromError::ExpectedBlockTag { expected: STRING_TAG, actual: tag });
    }
    let ghost ws = denote(arena.mem(), value, limit as int)->words;
    let mut all: Vec<u8> = Vec::new();
    let mut k: usize = 0;
    proof {
        assert(ws.take(0) =~= Seq::<u64>::empty());
    }
    while k < size
        invariant
            k <= size,
            size == ws.len(),
            arena.wf(),
            denote(arena.mem(), value, limit as int) is Raw,
            ws == denote(arena.mem(), value, limit as int)->words,
            all@ == words_bytes(ws.take(k as int)),
        decreases size - k,
    {
        let w = arena.field(value, limit, k);
        unpack_word(&mut all, w.0);
        proof {
            assert(ws.take(k + 1).drop_last() =~= ws.take(k as int));
            assert(ws.take(k + 1).last() == ws[k as int]);
        }
        k = k + 1;
    }
    proof {
        assert(ws.take(size as int) =~= ws);
        lemma_words_bytes_len(ws);
    }
    if size == 0 {
        return Err(FromError::WrongBlockSize { expected: 1, actual: 0 });
    }
    let n = all.len();
    let pad = all[n - 1] as usize;
    if pad + 1 > n {
        return Err(FromError::WrongBlockSize { expected: pad / 8 + 1, actual: size });
    }
    let keep = n - pad - 1;
    let mut out: Vec<u8> = Vec::new();
    let mut i: usize = 0;
    while i < keep
        invariant
            i <= keep,
            keep <= all@.len(),
            out@ == all@.take(i as int),
        decreases keep - i,
    {
        out.push(all[i]);
        i = i + 1;
        proof {
            assert(out@ =~= all@.take(i as int));
        }
    }
    Ok(out)
}

/// The error that std's UTF-8 check reports for `b`; it depends on the bytes
/// alone.
pub uninterp spec fn utf8_error_of(b: Seq<u8>) -> std::str::Utf8Error;

/// Relies on `std::str::from_utf8`: it accepts exactly the valid UTF-8 byte
/// sequences and then returns a string with those bytes; otherwise it reports
/// an error determined by the bytes.
#[verifier::external_body]
fn str_of_utf8(b: &[u8]) -> (r: Result<&str, std::str::Utf8Error>)
    ensures
        match r {
            Ok(s) => valid_utf8(b@) && s.spec_bytes() == b@,
            Err(e) => !valid_utf8(b@) && e == utf8_error_of(b@),
        },
{
    std::str::from_utf8(b)
}

/// Reading `r` back as a string: a byte string whose bytes are UTF-8.
pub open spec fn str_from_repr(r: Repr) -> Result<Seq<char>, FromError> {
    match bytes_from_repr(r) {
        Err(e) => Err(e),
        Ok(b) => if valid_utf8(b) {
            Ok(decode_utf8(b))
        } else {
            Err(FromError::BadUtf8(utf8_error_of(b)))
        },
    }
}

/// Allocate a string using the given arena and copy `s` into it.
pub fn str_to_ocamlrep(s: &str, arena: &mut Arena) -> (r: Value)
    requires
        old(arena).wf(),
        old(arena).has_room(string_words(s.spec_bytes().len()) + 1),
    ensures
        final(arena).wf(),
        final(arena).extends(old(arena)),
        final(arena).used() == old(arena).used() + string_words(s.spec_bytes().len()) + 1,
        !(final(arena).denote_value(r) is Foreign),
        bytes_encode(encode_utf8(s@), final(arena).denote_value(r)),
{
    bytes_to_ocamlrep(s.as_bytes(), arena)
}

/// Given a string value, return its contents if they are valid UTF-8.
pub fn str_from_ocamlrep(value: Value, arena: &Arena) -> (r: Result<String, FromError>)
    requires
        arena.wf(),
    ensures
        match r {
            Ok(s) => str_from_repr(arena.denote_value(value)) == Ok::<Seq<char>, FromError>(s@),
            Err(e) => str_from_repr(arena.denote_value(value)) == Err::<Seq<char>, FromError>(e),
        },
{
    match bytes_from_ocamlrep(value, arena) {
        Err(e) => Err(e),
        Ok(b) => match str_of_utf8(b.as_slice()) {
            Ok(s) => {
                proof {
                    vstd::utf8::encode_utf8_decode_utf8(s@);
                }
                Ok(s.to_owned())
            },
            Err(e) => Err(FromError::BadUtf8(e)),
        },
    }
}

impl OcamlRep for String {
    type Model = Seq<char>;

    open spec fn model(&self) -> Seq<char> {
        self@
    }

    open spec fn encodable(m: Seq<char>) -> bool {
        true
    }

    open spec fn faithful(m: Seq<char>) -> bool {
        true
    }

    open spec fn cost(m: Seq<char>) -> nat {
        string_words(encode_utf8(m).len()) + 1
    }

    open spec fn encodes(m: Seq<char>, r: Repr) -> bool {
        bytes_encode(encode_utf8(m), r)
    }

    open spec fn from_repr(r: Repr) -> Result<Seq<char>, FromError> {
        str_from_repr(r)
    }

    proof fn lemma_round_trip(m: Seq<char>, r: Repr) {
        lemma_bytes_round_trip(encode_utf8(m), r);
        vstd::utf8::encode_utf8_valid_utf8(m);
        vstd::utf8::encode_utf8_decode_utf8(m);
    }

    fn to_ocamlrep(&self, arena: &mut Arena) -> (r: Value) {
        str_to_ocamlrep(self.as_str(), arena)
    }
}

impl FromOcamlRep for String {
    fn from_ocamlrep_below(value: Value, arena: &Arena, limit: usize) -> (r: Result<String, FromError>) {
        match bytes_from_ocamlrep_below(value, arena, limit) {
            Err(e) => Err(e),
            Ok(b) => match str_of_utf8(b.as_slice()) {
                Ok(s) => {
                    proof {
                        vstd::utf8::encode_utf8_decode_utf8(s@);
                    }
                    Ok(s.to_owned())
                },
                Err(e) => Err(FromError::BadUtf8(e)),
            },
        }
    }
}

/// A byte string under construction: its length, fixed up front, and the
/// bytes written so far. Bytes never written read as zero.
pub struct ByteStringBuilder {
    len: usize,
    bytes: Vec<u8>,
}

impl ByteStringBuilder {
    pub closed spec fn spec_len(&self) -> nat {
        self.len as nat
    }

    pub closed spec fn spec_written(&self) -> Seq<u8> {
        self.bytes@
    }

    pub open spec fn wf(&self) -> bool {
        self.spec_written().len() <= self.spec_len()
    }

    /// The contents the string gets when built now.
    pub open spec fn spec_contents(&self) -> Seq<u8> {
        self.spec_written() + Seq::new((self.spec_len() - self.spec_written().len()) as nat, |i: int| 0u8)
    }

    /// Append as much of `buf` as there is room left for; returns how many
    /// bytes were taken.
    pub fn write(&mut self, buf: &[u8]) -> (n: usize)
        requires
            old(self).wf(),
        ensures
            final(self).wf(),
            final(self).spec_len() == old(self).spec_len(),
            n == if buf@.len() <= old(self).spec_len() - old(self).spec_written().len() {
                buf@.len() as int
            } else {
                old(self).spec_len() - old(self).spec_written().len()
            },
            final(self).spec_written() == old(self).spec_written() + buf@.take(n as int),
    {
        let room = self.len - self.bytes.len();
        let n = if buf.len() <= room {
            buf.len()
        } else {
            room
        };
        let ghost before = self.bytes@;
        let mut i: usize = 0;
        while i < n
            invariant
                i <= n,
                n <= buf@.len(),
                self.len == old(self).len,
                self.bytes@ == before + buf@.take(i as int),
            decreases n - i,
        {
            self.bytes.push(buf[i]);
            i = i + 1;
            proof {
                assert(self.bytes@ =~= before + buf@.take(i as int));
            }
        }
        n
    }
}

impl Arena {
    /// A builder for a byte string of `len` bytes.
    pub fn byte_string_with_len(&self, len: usize) -> (b: ByteStringBuilder)
        ensures
            b.wf(),
            b.spec_len() == len,
            b.spec_written() == Seq::<u8>::empty(),
    {
        ByteStringBuilder { len, bytes: Vec::new() }
    }

    /// Place the byte string that `b` describes in the arena.
    pub fn build_byte_string(&mut self, b: ByteStringBuilder) -> (r: Value)
        requires
            old(self).wf(),
            b.wf(),
            old(self).has_room(string_words(b.spec_len()) + 1),
        ensures
            final(self).wf(),
            final(self).extends(old(self)),
            final(self).used() == old(self).used() + string_words(b.spec_len()) + 1,
            !(final(self).denote_value(r) is Foreign),
            bytes_encode(b.spec_contents(), final(self).denote_value(r)),
    {
        let mut contents = b.bytes;
        let len = b.len;
        while contents.len() < len
            invariant
                contents@.len() <= len,
                len == b.spec_len(),
                b.spec_written().len() <= contents@.len(),
                contents@ == b.spec_written() + Seq::new((contents@.len() - b.spec_written().len()) as nat, |i: int| 0u8),
            decreases len - contents@.len(),
        {
            let ghost before = contents@;
            contents.push(0);
            proof {
                assert(contents@ =~= b.spec_written() + Seq::new((contents@.len() - b.spec_written().len()) as nat, |i: int| 0u8));
            }
        }
        bytes_to_ocamlrep(contents.as_slice(), self)
    }
}

#[verifier::external_type_specification]
#[verifier::external_body]
pub struct ExBump<const MIN_ALIGN: usize>(bumpalo::Bump<MIN_ALIGN>);

/// Relies on `bumpalo::Bump::alloc_str`: it copies `s` into `bump` and returns
/// the copy, which lives as long as `bump`. It aborts only when memory runs
/// out.
#[verifier::external_body]
fn bump_str<'a>(bump: &'a bumpalo::Bump, s: &str) -> (r: &'a str)
    ensures
        r@ == s@,
{
    bump.alloc_str(s)
}

/// Relies on `bumpalo::Bump::alloc_slice_copy`: it copies `b` into `bump` and
/// returns the copy, which lives as long as `bump`. It aborts only when memory
/// runs out.
#[verifier::external_body]
fn bump_bytes<'a>(bump: &'a bumpalo::Bump, b: &[u8]) -> (r: &'a [u8])
    ensures
        r@ == b@,
{
    bump.alloc_slice_copy(b)
}

/// Read a byte string back into storage owned by `bump`.
pub fn bytes_from_ocamlrep_in<'a>(value: Value, arena: &Arena, bump: &'a bumpalo::Bump) -> (r: Result<&'a [u8], FromError>)
    requires
        arena.wf(),
    ensures
        match r {
            Ok(b) => bytes_from_repr(arena.denote_value(value)) == Ok::<Seq<u8>, FromError>(b@),
            Err(e) => bytes_from_repr(arena.denote_value(value)) == Err::<Seq<u8>, FromError>(e),
        },
{
    match bytes_from_ocamlrep(value, arena) {
        Err(e) => Err(e),
        Ok(b) => Ok(bump_bytes(bump, b.as_slice())),
    }
}

/// Read a string back into storage owned by `bump`, if its contents are valid
/// UTF-8.
pub fn str_from_ocamlrep_in<'a>(value: Value, arena: &Arena, bump: &'a bumpalo::Bump) -> (r: Result<&'a str, FromError>)
    requires
        arena.wf(),
    ensures
        match r {
            Ok(s) => str_from_repr(arena.denote_value(value)) == Ok::<Seq<char>, FromError>(s@),
            Err(e) => str_from_repr(arena.denote_value(value)) == Err::<Seq<char>, FromError>(e),
        },
{
    match bytes_from_ocamlrep(value, arena) {
        Err(e) => Err(e),
        Ok(b) => match str_of_utf8(b.as_slice()) {
            Ok(s) => {
                proof {
                    vstd::utf8::encode_utf8_decode_utf8(s@);
                }
                Ok(bump_str(bump, s))
            },
            Err(e) => Err(FromError::BadUtf8(e)),
        },
    }
}

} // verus!
