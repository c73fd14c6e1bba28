//! Length-prefixed binary record encoding for the session executable payload.
//!
//! A record consists of a 4-byte little-endian size for each field, followed
//! by the field bodies: the program string as its UTF-8 bytes, and the
//! argument list as an element count, one 4-byte size per element, and the
//! elements' UTF-8 bytes. All sizes are `u32` values; a record whose sizes do
//! not fit is rejected at encode time.
use vstd::prelude::*;

use vstd::bytes::{
    lemma_auto_spec_u32_to_from_le_bytes, spec_u32_from_le_bytes, spec_u32_to_le_bytes,
    u32_from_le_bytes, u32_to_le_bytes,
};
use vstd::utf8::{
    decode_utf8, decode_utf8_encode_utf8, encode_utf8, encode_utf8_decode_utf8,
    encode_utf8_valid_utf8, valid_utf8,
};

use crate::command::CommandError;

verus! {

/// Little-endian 4-byte encoding of a size value.
pub open spec fn u32le(n: int) -> Seq<u8> {
    spec_u32_to_le_bytes(n as u32)
}

/// Total number of UTF-8 bytes over all argument strings.
pub open spec fn sizes_sum(a: Seq<Seq<char>>) -> int
    decreases a.len(),
{
    if a.len() == 0 {
        0
    } else {
        encode_utf8(a[0]).len() + sizes_sum(a.drop_first())
    }
}

/// The per-element size prefixes of the argument list.
pub open spec fn arg_sizes(a: Seq<Seq<char>>) -> Seq<u8>
    decreases a.len(),
{
    if a.len() == 0 {
        Seq::<u8>::empty()
    } else {
        u32le(encode_utf8(a[0]).len() as int) + arg_sizes(a.drop_first())
    }
}

/// The concatenated UTF-8 bodies of the argument list.
pub open spec fn arg_bodies(a: Seq<Seq<char>>) -> Seq<u8>
    decreases a.len(),
{
    if a.len() == 0 {
        Seq::<u8>::empty()
    } else {
        encode_utf8(a[0]) + arg_bodies(a.drop_first())
    }
}

/// Record encoding of the argument list: count, sizes, bodies.
pub open spec fn args_record(a: Seq<Seq<char>>) -> Seq<u8> {
    u32le(a.len() as int) + arg_sizes(a) + arg_bodies(a)
}

/// Record encoding of a program plus its argument list.
pub open spec fn session_record(p: Seq<char>, a: Seq<Seq<char>>) -> Seq<u8> {
    u32le(encode_utf8(p).len() as int) + u32le(args_record(a).len() as int) + encode_utf8(p)
        + args_record(a)
}

/// True when every size in the record encoding of `(p, a)`, the total
/// included, fits in a `u32`; exactly then does encoding succeed.
pub open spec fn record_fits(p: Seq<char>, a: Seq<Seq<char>>) -> bool {
    8 + encode_utf8(p).len() + args_record(a).len() <= u32::MAX
}

/// True when the two field sizes of the record of `(p, a)` fit in a `u32`,
/// so that its size prefixes mean what they say. Decoding accepts exactly
/// such records, whether or not the total also fits.
pub open spec fn record_parts_fit(p: Seq<char>, a: Seq<Seq<char>>) -> bool {
    encode_utf8(p).len() <= u32::MAX && args_record(a).len() <= u32::MAX
}

/// True when `b` is the record encoding of some program and argument list.
pub open spec fn some_record(b: Seq<u8>) -> bool {
    exists|p: Seq<char>, a: Seq<Seq<char>>| record_parts_fit(p, a) && session_record(p, a) == b
}

/// Splitting a subrange at an interior point.
pub proof fn lemma_subrange_split(s: Seq<u8>, a: int, b: int, c: int)
    requires
        0 <= a <= b <= c <= s.len(),
    ensures
        s.subrange(a, c) == s.subrange(a, b) + s.subrange(b, c),
{
    assert(s.subrange(a, c) =~= s.subrange(a, b) + s.subrange(b, c));
}

pub proof fn lemma_u32le_len(n: int)
    ensures
        u32le(n).len() == 4,
{
    lemma_auto_spec_u32_to_from_le_bytes();
}

pub proof fn lemma_u32le_read(n: int)
    requires
        0 <= n <= u32::MAX,
    ensures
        spec_u32_from_le_bytes(u32le(n)) == n,
        u32le(n).len() == 4,
{
    lemma_auto_spec_u32_to_from_le_bytes();
}

pub proof fn lemma_args_lens(a: Seq<Seq<char>>)
    ensures
        sizes_sum(a) >= 0,
        arg_sizes(a).len() == 4 * a.len(),
        arg_bodies(a).len() == sizes_sum(a),
        args_record(a).len() == 4 + 4 * a.len() + sizes_sum(a),
    decreases a.len(),
{
    lemma_u32le_len(a.len() as int);
    if a.len() == 0 {
    } else {
        lemma_u32le_len(encode_utf8(a[0]).len() as int);
        lemma_args_lens(a.drop_first());
    }
}

pub proof fn lemma_sizes_sum_elem(a: Seq<Seq<char>>, i: int)
    requires
        0 <= i < a.len(),
    ensures
        sizes_sum(a) >= encode_utf8(a[i]).len(),
    decreases i,
{
    if i == 0 {
        lemma_args_lens(a.drop_first());
    } else {
        lemma_sizes_sum_elem(a.drop_first(), i - 1);
    }
}

/// Appending one more argument extends the sizes and bodies regions.
pub proof fn lemma_args_snoc(a: Seq<Seq<char>>, i: int)
    requires
        0 <= i < a.len(),
    ensures
        arg_sizes(a.take(i + 1)) == arg_sizes(a.take(i)) + u32le(encode_utf8(a[i]).len() as int),
        arg_bodies(a.take(i + 1)) == arg_bodies(a.take(i)) + encode_utf8(a[i]),
        sizes_sum(a.take(i + 1)) == sizes_sum(a.take(i)) + encode_utf8(a[i]).len(),
    decreases i,
{
    if i == 0 {
        assert(a.take(0) =~= Seq::<Seq<char>>::empty());
        assert(a.take(1).drop_first() =~= Seq::<Seq<char>>::empty());
        assert(a.take(1)[0] == a[0]);
        assert(arg_sizes(a.take(1)) =~= arg_sizes(a.take(0)) + u32le(
            encode_utf8(a[0]).len() as int,
        ));
        assert(arg_bodies(a.take(1)) =~= arg_bodies(a.take(0)) + encode_utf8(a[0]));
    } else {
        let t = a.drop_first();
        lemma_args_snoc(t, i - 1);
        assert(a.take(i + 1).drop_first() =~= t.take(i));
        assert(a.take(i).drop_first() =~= t.take(i - 1));
        assert(a.take(i + 1)[0] == a[0]);
        assert(a.take(i)[0] == a[0]);
        assert(t[i - 1] == a[i]);
        assert(arg_sizes(a.take(i + 1)) =~= arg_sizes(a.take(i)) + u32le(
            encode_utf8(a[i]).len() as int,
        ));
        assert(arg_bodies(a.take(i + 1)) =~= arg_bodies(a.take(i)) + encode_utf8(a[i]));
    }
}

/// Where the size prefix and the body of argument `i` sit inside the regions.
pub proof fn lemma_args_windows(a: Seq<Seq<char>>, i: int)
    requires
        0 <= i < a.len(),
    ensures
        arg_sizes(a).subrange(4 * i, 4 * i + 4) == u32le(encode_utf8(a[i]).len() as int),
        arg_bodies(a).subrange(
            sizes_sum(a.take(i)),
            sizes_sum(a.take(i)) + encode_utf8(a[i]).len(),
        ) == encode_utf8(a[i]),
    decreases i,
{
    lemma_args_lens(a);
    lemma_u32le_len(encode_utf8(a[0]).len() as int);
    lemma_args_lens(a.drop_first());
    if i == 0 {
        assert(a.take(0) =~= Seq::<Seq<char>>::empty());
        assert(arg_sizes(a).subrange(0, 4) =~= u32le(encode_utf8(a[0]).len() as int));
        assert(arg_bodies(a).subrange(0, encode_utf8(a[0]).len() as int) =~= encode_utf8(a[0]));
    } else {
        let t = a.drop_first();
        lemma_args_windows(t, i - 1);
        lemma_args_lens(t);
        assert(t[i - 1] == a[i]);
        assert(a.take(i).drop_first() =~= t.take(i - 1));
        assert(a.take(i)[0] == a[0]);
        assert(sizes_sum(a.take(i)) == encode_utf8(a[0]).len() + sizes_sum(t.take(i - 1)));
        assert(arg_sizes(a).subrange(4 * i, 4 * i + 4) =~= arg_sizes(t).subrange(
            4 * (i - 1),
            4 * (i - 1) + 4,
        ));
        let off = sizes_sum(t.take(i - 1));
        let l = encode_utf8(a[i]).len() as int;
        lemma_sum_take_bound(t, i - 1);
        assert(arg_bodies(a).subrange(
            encode_utf8(a[0]).len() + off,
            encode_utf8(a[0]).len() + off + l,
        ) =~= arg_bodies(t).subrange(off, off + l));
    }
}

/// The byte total of a prefix of the argument list never exceeds the whole.
pub proof fn lemma_sum_take_bound(a: Seq<Seq<char>>, i: int)
    requires
        0 <= i <= a.len(),
    ensures
        0 <= sizes_sum(a.take(i)),
        i < a.len() ==> sizes_sum(a.take(i)) + encode_utf8(a[i]).len() <= sizes_sum(a),
        i == a.len() ==> sizes_sum(a.take(i)) == sizes_sum(a),
    decreases a.len() - i,
{
    lemma_args_lens(a.take(i));
    if i == a.len() {
        assert(a.take(i) =~= a);
    } else {
        lemma_args_snoc(a, i);
        lemma_sum_take_bound(a, i + 1);
    }
}

/// Two argument lists with the same sizes and bodies regions are equal.
pub proof fn lemma_args_regions_injective(a1: Seq<Seq<char>>, a2: Seq<Seq<char>>)
    requires
        a1.len() == a2.len(),
        arg_sizes(a1) == arg_sizes(a2),
        arg_bodies(a1) == arg_bodies(a2),
        forall|i: int| 0 <= i < a1.len() ==> encode_utf8(a1[i]).len() <= u32::MAX,
        forall|i: int| 0 <= i < a2.len() ==> encode_utf8(a2[i]).len() <= u32::MAX,
    ensures
        a1 == a2,
    decreases a1.len(),
{
    if a1.len() == 0 {
        assert(a1 =~= a2);
    } else {
        let l1 = encode_utf8(a1[0]).len() as int;
        let l2 = encode_utf8(a2[0]).len() as int;
        lemma_u32le_len(l1);
        lemma_u32le_len(l2);
        lemma_u32le_read(l1);
        lemma_u32le_read(l2);
        assert(arg_sizes(a1).subrange(0, 4) =~= u32le(l1));
        assert(arg_sizes(a2).subrange(0, 4) =~= u32le(l2));
        assert(l1 == l2);
        assert(arg_bodies(a1).subrange(0, l1) =~= encode_utf8(a1[0]));
        assert(arg_bodies(a2).subrange(0, l2) =~= encode_utf8(a2[0]));
        encode_utf8_decode_utf8(a1[0]);
        encode_utf8_decode_utf8(a2[0]);
        assert(a1[0] == a2[0]);
        lemma_args_lens(a1.drop_first());
        lemma_args_lens(a2.drop_first());
        assert(arg_sizes(a1.drop_first()) =~= arg_sizes(a1).subrange(4, arg_sizes(a1).len() as int));
        assert(arg_sizes(a2.drop_first()) =~= arg_sizes(a2).subrange(4, arg_sizes(a2).len() as int));
        assert(arg_bodies(a1.drop_first()) =~= arg_bodies(a1).subrange(
            l1,
            arg_bodies(a1).len() as int,
        ));
        assert(arg_bodies(a2.drop_first()) =~= arg_bodies(a2).subrange(
            l2,
            arg_bodies(a2).len() as int,
        ));
        assert(forall|i: int|
            0 <= i < a1.drop_first().len() ==> encode_utf8(a1.drop_first()[i]).len() <= u32::MAX);
        assert(forall|i: int|
            0 <= i < a2.drop_first().len() ==> encode_utf8(a2.drop_first()[i]).len() <= u32::MAX);
        lemma_args_regions_injective(a1.drop_first(), a2.drop_first());
        assert forall|i: int| 0 <= i < a1.len() implies a1[i] == a2[i] by {
            if i > 0 {
                assert(a1[i] == a1.drop_first()[i - 1]);
                assert(a2[i] == a2.drop_first()[i - 1]);
            }
        }
        assert(a1 =~= a2);
    }
}

/// How a record splits into its prefixes, program body and argument region.
pub proof fn lemma_record_parts(p: Seq<char>, a: Seq<Seq<char>>)
    requires
        record_parts_fit(p, a),
    ensures
        session_record(p, a).len() == 8 + encode_utf8(p).len() + args_record(a).len(),
        spec_u32_from_le_bytes(session_record(p, a).subrange(0, 4)) == encode_utf8(p).len(),
        spec_u32_from_le_bytes(session_record(p, a).subrange(4, 8)) == args_record(a).len(),
        session_record(p, a).subrange(8, 8 + encode_utf8(p).len() as int) == encode_utf8(p),
        session_record(p, a).subrange(
            8 + encode_utf8(p).len() as int,
            session_record(p, a).len() as int,
        ) == args_record(a),
        spec_u32_from_le_bytes(args_record(a).subrange(0, 4)) == a.len(),
        args_record(a).subrange(4, 4 + 4 * a.len() as int) == arg_sizes(a),
        args_record(a).subrange(4 + 4 * a.len() as int, args_record(a).len() as int) == arg_bodies(
            a,
        ),
{
    let pl = encode_utf8(p).len() as int;
    let al = args_record(a).len() as int;
    lemma_args_lens(a);
    lemma_u32le_read(pl);
    lemma_u32le_read(al);
    lemma_u32le_read(a.len() as int);
    assert(session_record(p, a).subrange(0, 4) =~= u32le(pl));
    assert(session_record(p, a).subrange(4, 8) =~= u32le(al));
    assert(session_record(p, a).subrange(8, 8 + pl) =~= encode_utf8(p));
    assert(session_record(p, a).subrange(8 + pl, 8 + pl + al) =~= args_record(a));
    assert(args_record(a).subrange(0, 4) =~= u32le(a.len() as int));
    assert(args_record(a).subrange(4, 4 + 4 * a.len() as int) =~= arg_sizes(a));
    assert(args_record(a).subrange(4 + 4 * a.len() as int, al) =~= arg_bodies(a));
}

/// A byte sequence is the record of at most one program and argument list.
pub proof fn lemma_record_injective(
    p1: Seq<char>,
    a1: Seq<Seq<char>>,
    p2: Seq<char>,
    a2: Seq<Seq<char>>,
)
    requires
        record_parts_fit(p1, a1),
        record_parts_fit(p2, a2),
        session_record(p1, a1) == session_record(p2, a2),
    ensures
        p1 == p2,
        a1 == a2,
{
    lemma_record_parts(p1, a1);
    lemma_record_parts(p2, a2);
    assert(encode_utf8(p1).len() == encode_utf8(p2).len());
    assert(encode_utf8(p1) == encode_utf8(p2));
    encode_utf8_decode_utf8(p1);
    encode_utf8_decode_utf8(p2);
    assert(args_record(a1) == args_record(a2));
    lemma_args_lens(a1);
    lemma_args_lens(a2);
    assert(a1.len() == a2.len());
    assert(arg_sizes(a1) == arg_sizes(a2));
    assert(arg_bodies(a1) == arg_bodies(a2));
    assert forall|i: int| 0 <= i < a1.len() implies encode_utf8(a1[i]).len() <= u32::MAX by {
        lemma_sizes_sum_elem(a1, i);
    }
    assert forall|i: int| 0 <= i < a2.len() implies encode_utf8(a2[i]).len() <= u32::MAX by {
        lemma_sizes_sum_elem(a2, i);
    }
    lemma_args_regions_injective(a1, a2);
}

#[verifier::external_type_specification]
#[verifier::external_body]
pub struct ExByteVecError(bytevec2::errors::ByteVecError);

/// Relies on bytevec2's `str` encoder: the result is the string's UTF-8
/// bytes, and encoding fails exactly when the byte length exceeds
/// `u32::MAX` (the serializer's size type).
#[verifier::external_body]
fn bv_encode_str(s: &str) -> (r: Result<Vec<u8>, bytevec2::errors::ByteVecError>)
    ensures
        r matches Ok(v) ==> v@ == encode_utf8(s@) && v@.len() <= u32::MAX,
        r is Err ==> encode_utf8(s@).len() > u32::MAX,
{
    bytevec2::ByteEncodable::encode::<u32>(s)
}

/// Relies on bytevec2's `String` decoder (`str::from_utf8`): it succeeds
/// exactly on valid UTF-8 input and yields the decoded characters.
#[verifier::external_body]
fn bv_decode_string(bytes: &[u8]) -> (r: Result<String, bytevec2::errors::ByteVecError>)
    ensures
        r matches Ok(s) ==> valid_utf8(bytes@) && s@ == decode_utf8(bytes@),
        r is Err ==> !valid_utf8(bytes@),
{
    bytevec2::ByteDecodable::decode::<u32>(bytes)
}

/// Reads the 4-byte little-endian size at `off`.
fn read_u32(b: &[u8], off: usize) -> (x: u32)
    requires
        off + 4 <= b@.len(),
    ensures
        x == spec_u32_from_le_bytes(b@.subrange(off as int, off as int + 4)),
{
    let blen: usize = b.len();
    u32_from_le_bytes(&b[off..off + 4])
}

/// Encodes a program and argument list as a record, or reports that a size
/// does not fit in the serializer's `u32` size type.
pub fn encode_record(program: &String, arguments: &Vec<String>) -> (r: Result<
    Vec<u8>,
    CommandError,
>)
    ensures
        record_fits(program@, arguments.deep_view()) ==> (r matches Ok(v) && v@ == session_record(
            program@,
            arguments.deep_view(),
        )),
        !record_fits(program@, arguments.deep_view()) ==> r == Err::<Vec<u8>, CommandError>(
            CommandError::OversizedRecord,
        ),
{
    let ghost ag: Seq<Seq<char>> = arguments.deep_view();
    proof {
        lemma_args_lens(ag);
    }
    let prog = match bv_encode_str(program.as_str()) {
        Ok(v) => v,
        Err(_) => {
            return Err(CommandError::OversizedRecord);
        },
    };
    let n: usize = arguments.len();
    if n > ((u32::MAX as usize) - 4) / 4 {
        return Err(CommandError::OversizedRecord);
    }
    let mut sizes_part: Vec<u8> = Vec::new();
    let mut bodies_part: Vec<u8> = Vec::new();
    let mut total_bodies: u64 = 0;
    let mut i: usize = 0;
    while i < n
        invariant
            n == ag.len(),
            n <= ((u32::MAX as usize) - 4) / 4,
            0 <= i <= n,
            ag == arguments.deep_view(),
            arguments.len() == n,
            sizes_part@ == arg_sizes(ag.take(i as int)),
            bodies_part@ == arg_bodies(ag.take(i as int)),
            total_bodies == sizes_sum(ag.take(i as int)),
            total_bodies <= (i as u64) * (u32::MAX as u64),
        decreases n - i,
    {
        proof {
            assert(ag[i as int] == arguments[i as int]@);
        }
        let ab = match bv_encode_str(arguments[i].as_str()) {
            Ok(v) => v,
            Err(_) => {
                proof {
                    lemma_sizes_sum_elem(ag, i as int);
                    lemma_args_lens(ag);
                }
                return Err(CommandError::OversizedRecord);
            },
        };
        let mut ab = ab;
        let len32: u32 = ab.len() as u32;
        let mut szb = u32_to_le_bytes(len32);
        proof {
            lemma_args_snoc(ag, i as int);
            let iu = i as u64;
            assert(total_bodies + (ab.len() as u64) <= (iu + 1) * 0xffff_ffffu64 && (iu + 1)
                * 0xffff_ffffu64 <= 0x4000_0000u64 * 0xffff_ffffu64) by (nonlinear_arith)
                requires
                    total_bodies <= iu * 0xffff_ffffu64,
                    ab.len() as u64 <= 0xffff_ffffu64,
                    iu + 1 <= 0x4000_0000u64,
            ;
        }
        sizes_part.append(&mut szb);
        total_bodies = total_bodies + (ab.len() as u64);
        bodies_part.append(&mut ab);
        i = i + 1;
    }
    proof {
        assert(ag.take(n as int) =~= ag);
        lemma_args_lens(ag);
    }
    let args_total: u64 = 4 + 4 * (n as u64) + total_bodies;
    if args_total > (u32::MAX as u64) {
        return Err(CommandError::OversizedRecord);
    }
    let grand: u64 = 8 + (prog.len() as u64) + args_total;
    if grand > (u32::MAX as u64) {
        return Err(CommandError::OversizedRecord);
    }
    let mut out = u32_to_le_bytes(prog.len() as u32);
    let mut part = u32_to_le_bytes(args_total as u32);
    out.append(&mut part);
    let mut prog = prog;
    out.append(&mut prog);
    let mut cnt = u32_to_le_bytes(n as u32);
    out.append(&mut cnt);
    out.append(&mut sizes_part);
    out.append(&mut bodies_part);
    proof {
        assert(out@ =~= session_record(program@, ag));
    }
    Ok(out)
}

/// Decodes a record back into a program and argument list. Succeeds exactly
/// on byte sequences produced by [`encode_record`], and on those whose total
/// size exceeds the size type but whose field sizes still fit.
#[verifier::rlimit(100)]
pub fn decode_record(bytes: &[u8]) -> (r: Result<(String, Vec<String>), CommandError>)
    ensures
        r matches Ok(pa) ==> record_parts_fit(pa.0@, pa.1.deep_view()) && session_record(
            pa.0@,
            pa.1.deep_view(),
        ) == bytes@,
        some_record(bytes@) ==> r is Ok,
        r is Err ==> r == Err::<(String, Vec<String>), CommandError>(CommandError::MalformedRecord),
{
    proof {
        lemma_auto_spec_u32_to_from_le_bytes();
    }
    let blen: usize = bytes.len();
    let ghost wit: (Seq<char>, Seq<Seq<char>>) = if some_record(bytes@) {
        choose|p: Seq<char>, a: Seq<Seq<char>>|
            record_parts_fit(p, a) && session_record(p, a) == bytes@
    } else {
        (Seq::<char>::empty(), Seq::<Seq<char>>::empty())
    };
    proof {
        if some_record(bytes@) {
            assert(record_parts_fit(wit.0, wit.1) && session_record(wit.0, wit.1) == bytes@);
            lemma_record_parts(wit.0, wit.1);
            lemma_args_lens(wit.1);
        }
    }
    if blen < 8 {
        return Err(CommandError::MalformedRecord);
    }
    let ps: u32 = read_u32(bytes, 0);
    let asz: u32 = read_u32(bytes, 4);
    let remaining: usize = blen - 8;
    proof {
        if some_record(bytes@) {
            assert(ps == encode_utf8(wit.0).len());
            assert(asz == args_record(wit.1).len());
        }
    }
    if (ps as usize) > remaining {
        return Err(CommandError::MalformedRecord);
    }
    if (asz as usize) != remaining - (ps as usize) {
        return Err(CommandError::MalformedRecord);
    }
    let prog_end: usize = 8 + (ps as usize);
    let prog = match bv_decode_string(&bytes[8..prog_end]) {
        Ok(s) => s,
        Err(_) => {
            proof {
                if some_record(bytes@) {
                    encode_utf8_valid_utf8(wit.0);
                    assert(bytes@.subrange(8, prog_end as int) == encode_utf8(wit.0));
                }
            }
            return Err(CommandError::MalformedRecord);
        },
    };
    proof {
        decode_utf8_encode_utf8(bytes@.subrange(8, prog_end as int));
        if some_record(bytes@) {
            assert(bytes@.subrange(8, prog_end as int) == encode_utf8(wit.0));
        }
    }
    // The argument region: count, element sizes, element bodies.
    let ghost areg: Seq<u8> = bytes@.subrange(prog_end as int, bytes@.len() as int);
    proof {
        if some_record(bytes@) {
            assert(areg == args_record(wit.1));
        }
    }
    if (asz as usize) < 4 {
        return Err(CommandError::MalformedRecord);
    }
    let count: u32 = read_u32(bytes, prog_end);
    proof {
        assert(bytes@.subrange(prog_end as int, prog_end as int + 4) =~= areg.subrange(0, 4));
        if some_record(bytes@) {
            assert(count == wit.1.len());
        }
    }
    let sizes_room: usize = (asz as usize) - 4;
    if (count as u64) * 4 > (sizes_room as u64) {
        return Err(CommandError::MalformedRecord);
    }
    let sizes_start: usize = prog_end + 4;
    let bodies_start: usize = sizes_start + (count as usize) * 4;
    let mut szs: Vec<u32> = Vec::new();
    let mut total64: u64 = 0;
    let mut j: usize = 0;
    while j < (count as usize)
        invariant
            0 <= j <= count,
            (count as u64) * 4 <= sizes_room as u64,
            sizes_room == (asz as usize) - 4,
            blen == bytes@.len(),
            asz as usize <= blen - 8,
            prog_end == 8 + ps as usize,
            prog_end + (asz as usize) == blen,
            sizes_start == prog_end + 4,
            bodies_start == sizes_start + (count as usize) * 4,
            some_record(bytes@) ==> record_parts_fit(wit.0, wit.1) && session_record(
                wit.0,
                wit.1,
            ) == bytes@,
            ps == spec_u32_from_le_bytes(bytes@.subrange(0, 4)),
            count == spec_u32_from_le_bytes(
                bytes@.subrange(prog_end as int, prog_end as int + 4),
            ),
            szs@.len() == j,
            forall|k: int|
                0 <= k < j ==> szs@[k] == spec_u32_from_le_bytes(
                    bytes@.subrange(sizes_start + 4 * k, sizes_start + 4 * k + 4),
                ),
            total64 == spec_sum_u32s(szs@),
            total64 <= (j as u64) * 0xffff_ffffu64,
        decreases count - j,
    {
        proof {
            let ju = j as u64;
            let cu = count as u64;
            assert((ju + 1) * 4 <= cu * 4) by (nonlinear_arith)
                requires
                    ju < cu,
            ;
            assert(total64 + 0xffff_ffffu64 <= (ju + 1) * 0xffff_ffffu64 && (ju + 1)
                * 0xffff_ffffu64 <= 0xffff_ffffu64 * 0xffff_ffffu64) by (nonlinear_arith)
                requires
                    total64 <= ju * 0xffff_ffffu64,
                    ju + 1 <= 0xffff_ffffu64,
            ;
        }
        let s: u32 = read_u32(bytes, sizes_start + 4 * j);
        let ghost pre_szs = szs@;
        szs.push(s);
        total64 = total64 + (s as u64);
        proof {
            lemma_sum_u32s_snoc(szs@);
            assert(szs@.take(szs@.len() - 1) =~= pre_szs);
        }
        j = j + 1;
    }
    let bodies_room: usize = sizes_room - (count as usize) * 4;
    if total64 != (bodies_room as u64) {
        proof {
            if some_record(bytes@) {
                assert(record_parts_fit(wit.0, wit.1) && session_record(wit.0, wit.1) == bytes@);
                lemma_record_parts(wit.0, wit.1);
                lemma_args_lens(wit.1);
                assert(ps == encode_utf8(wit.0).len());
                assert(args_record(wit.1) == bytes@.subrange(prog_end as int, blen as int));
                assert(bytes@.subrange(prog_end as int, prog_end as int + 4) =~= args_record(
                    wit.1,
                ).subrange(0, 4));
                assert(count == spec_u32_from_le_bytes(args_record(wit.1).subrange(0, 4)));
                assert(count == wit.1.len());
                lemma_whole_sizes_match(bytes@, wit.0, wit.1, szs@, sizes_start as int);
                assert(false);
            }
        }
        return Err(CommandError::MalformedRecord);
    }
    // Decode each argument body at its running offset.
    let mut args: Vec<String> = Vec::new();
    let mut off: usize = bodies_start;
    let mut k: usize = 0;
    while k < (count as usize)
        invariant
            0 <= k <= count,
            szs@.len() == count,
            (count as u64) * 4 <= sizes_room as u64,
            sizes_room == (asz as usize) - 4,
            blen == bytes@.len(),
            asz as usize <= blen - 8,
            prog_end == 8 + ps as usize,
            prog_end + (asz as usize) == blen,
            sizes_start == prog_end + 4,
            bodies_start == sizes_start + (count as usize) * 4,
            bodies_room == sizes_room - (count as usize) * 4,
            some_record(bytes@) ==> record_parts_fit(wit.0, wit.1) && session_record(
                wit.0,
                wit.1,
            ) == bytes@,
            ps == spec_u32_from_le_bytes(bytes@.subrange(0, 4)),
            count == spec_u32_from_le_bytes(
                bytes@.subrange(prog_end as int, prog_end as int + 4),
            ),
            spec_sum_u32s(szs@) == bodies_room as int,
            forall|t: int|
                0 <= t < count ==> szs@[t] == spec_u32_from_le_bytes(
                    bytes@.subrange(sizes_start + 4 * t, sizes_start + 4 * t + 4),
                ),
            args@.len() == k,
            off == bodies_start + spec_sum_u32s(szs@.take(k as int)),
            off <= blen,
            arg_sizes(args.deep_view()) == bytes@.subrange(sizes_start as int, sizes_start + 4 * k),
            arg_bodies(args.deep_view()) == bytes@.subrange(bodies_start as int, off as int),
            sizes_sum(args.deep_view()) == spec_sum_u32s(szs@.take(k as int)),
            forall|t: int| 0 <= t < k ==> encode_utf8(args.deep_view()[t]).len() == szs@[t],
        decreases count - k,
    {
        let sz: usize = szs[k] as usize;
        proof {
            lemma_sum_u32s_take_bound(szs@, k as int);
            lemma_sum_u32s_nonneg(szs@.take(k as int));
        }
        let seg_end: usize = off + sz;
        let s = match bv_decode_string(&bytes[off..seg_end]) {
            Ok(s) => s,
            Err(_) => {
                proof {
                    if some_record(bytes@) {
                        assert(record_parts_fit(wit.0, wit.1) && session_record(wit.0, wit.1)
                            == bytes@);
                        lemma_record_parts(wit.0, wit.1);
                        lemma_args_lens(wit.1);
                        assert(ps == encode_utf8(wit.0).len());
                        assert(args_record(wit.1) == bytes@.subrange(prog_end as int, blen as int));
                        assert(bytes@.subrange(prog_end as int, prog_end as int + 4)
                            =~= args_record(wit.1).subrange(0, 4));
                        assert(count == spec_u32_from_le_bytes(
                            args_record(wit.1).subrange(0, 4),
                        ));
                        assert(count == wit.1.len());
                        lemma_whole_sizes_match(bytes@, wit.0, wit.1, szs@, sizes_start as int);
                        lemma_body_offset_match(bytes@, wit.0, wit.1, szs@, k as int);
                        assert(sz == encode_utf8(wit.1[k as int]).len());
                        assert(off as int == bodies_start + sizes_sum(wit.1.take(k as int)));
                        assert(bytes@.subrange(off as int, seg_end as int) == encode_utf8(
                            wit.1[k as int],
                        ));
                        encode_utf8_valid_utf8(wit.1[k as int]);
                        assert(false);
                    }
                }
                return Err(CommandError::MalformedRecord);
            },
        };
        proof {
            decode_utf8_encode_utf8(bytes@.subrange(off as int, seg_end as int));
            lemma_sum_u32s_snoc_take(szs@, k as int);
            lemma_auto_spec_u32_to_from_le_bytes();
            assert(encode_utf8(s@) == bytes@.subrange(off as int, seg_end as int));
            assert(encode_utf8(s@).len() == sz);
            assert(sz == szs@[k as int]);
            assert(szs@[k as int] == spec_u32_from_le_bytes(
                bytes@.subrange(
                    sizes_start + 4 * (k as int),
                    sizes_start + 4 * (k as int) + 4,
                ),
            ));
            assert(spec_u32_to_le_bytes(szs@[k as int]) == bytes@.subrange(
                sizes_start + 4 * (k as int),
                sizes_start + 4 * (k as int) + 4,
            ));
        }
        let ghost pre_deep = args.deep_view();
        args.push(s);
        proof {
            assert(args.deep_view() =~= pre_deep.push(s@));
            lemma_args_snoc(args.deep_view(), k as int);
            assert(args.deep_view().take(k as int) =~= pre_deep);
            assert(args.deep_view().take(k as int + 1) =~= args.deep_view());
            assert(u32le(encode_utf8(s@).len() as int) == bytes@.subrange(
                sizes_start + 4 * (k as int),
                sizes_start + 4 * (k as int) + 4,
            ));
            assert(args.deep_view()[k as int] == s@);
            assert(arg_sizes(args.deep_view()) == arg_sizes(pre_deep) + u32le(
                encode_utf8(s@).len() as int,
            ));
            assert(arg_bodies(args.deep_view()) == arg_bodies(pre_deep) + encode_utf8(s@));
            assert(4 * (k as int + 1) <= 4 * (count as int));
            assert(sizes_start + 4 * (count as int) == bodies_start as int);
            assert(bodies_start <= blen);
            lemma_subrange_split(
                bytes@,
                sizes_start as int,
                sizes_start + 4 * (k as int),
                sizes_start + 4 * (k as int + 1),
            );
            assert(off as int + szs@[k as int] <= bodies_start as int + bodies_room as int);
            assert(seg_end <= blen);
            lemma_subrange_split(bytes@, bodies_start as int, off as int, seg_end as int);
            assert(arg_sizes(args.deep_view()) =~= bytes@.subrange(
                sizes_start as int,
                sizes_start + 4 * (k as int + 1),
            ));
            assert(arg_bodies(args.deep_view()) =~= bytes@.subrange(
                bodies_start as int,
                seg_end as int,
            ));
        }
        off = seg_end;
        k = k + 1;
    }
    // Reassemble the record from what was decoded and check it is the input.
    proof {
        let ad = args.deep_view();
        assert(szs@.take(count as int) =~= szs@);
        assert(off == bytes@.len());
        lemma_args_lens(ad);
        assert(u32le(count as int) == bytes@.subrange(prog_end as int, prog_end as int + 4));
        assert(args_record(ad) =~= bytes@.subrange(prog_end as int, bytes@.len() as int));
        assert(u32le(encode_utf8(prog@).len() as int) == bytes@.subrange(0, 4));
        assert(u32le(args_record(ad).len() as int) == bytes@.subrange(4, 8));
        assert(session_record(prog@, ad) =~= bytes@);
    }
    Ok((prog, args))
}

/// Total of a list of `u32` sizes, as read from the record.
pub open spec fn spec_sum_u32s(s: Seq<u32>) -> int
    decreases s.len(),
{
    if s.len() == 0 {
        0
    } else {
        s[0] + spec_sum_u32s(s.drop_first())
    }
}

proof fn lemma_sum_u32s_nonneg(s: Seq<u32>)
    ensures
        spec_sum_u32s(s) >= 0,
    decreases s.len(),
{
    if s.len() > 0 {
        lemma_sum_u32s_nonneg(s.drop_first());
    }
}

proof fn lemma_sum_u32s_snoc(s: Seq<u32>)
    requires
        s.len() > 0,
    ensures
        spec_sum_u32s(s) == spec_sum_u32s(s.take(s.len() - 1)) + s[s.len() - 1],
    decreases s.len(),
{
    if s.len() == 1 {
        assert(s.take(0) =~= Seq::<u32>::empty());
        assert(s.drop_first() =~= Seq::<u32>::empty());
    } else {
        lemma_sum_u32s_snoc(s.drop_first());
        assert(s.take(s.len() - 1).drop_first() =~= s.drop_first().take(s.drop_first().len() - 1));
        assert(s.take(s.len() - 1)[0] == s[0]);
        assert(s.drop_first()[s.len() - 2] == s[s.len() - 1]);
    }
}

proof fn lemma_sum_u32s_snoc_take(s: Seq<u32>, k: int)
    requires
        0 <= k < s.len(),
    ensures
        spec_sum_u32s(s.take(k + 1)) == spec_sum_u32s(s.take(k)) + s[k],
{
    lemma_sum_u32s_snoc(s.take(k + 1));
    assert(s.take(k + 1).take(k) =~= s.take(k));
    assert(s.take(k + 1)[k] == s[k]);
}

proof fn lemma_sum_u32s_take_bound(s: Seq<u32>, k: int)
    requires
        0 <= k <= s.len(),
    ensures
        spec_sum_u32s(s.take(k)) <= spec_sum_u32s(s),
        k < s.len() ==> spec_sum_u32s(s.take(k)) + s[k] <= spec_sum_u32s(s),
    decreases s.len() - k,
{
    if k == s.len() {
        assert(s.take(k) =~= s);
    } else {
        lemma_sum_u32s_snoc_take(s, k);
        lemma_sum_u32s_take_bound(s, k + 1);
    }
}

/// When the input is a well-formed record, the sizes read from it are the
/// argument byte lengths, and their total is the bodies-region length.
proof fn lemma_whole_sizes_match(
    b: Seq<u8>,
    p: Seq<char>,
    a: Seq<Seq<char>>,
    szs: Seq<u32>,
    sizes_start: int,
)
    requires
        record_parts_fit(p, a),
        session_record(p, a) == b,
        sizes_start == 8 + encode_utf8(p).len() + 4,
        szs.len() == a.len(),
        forall|k: int|
            0 <= k < szs.len() ==> szs[k] == spec_u32_from_le_bytes(
                b.subrange(sizes_start + 4 * k, sizes_start + 4 * k + 4),
            ),
    ensures
        forall|k: int| 0 <= k < szs.len() ==> szs[k] == encode_utf8(a[k]).len(),
        spec_sum_u32s(szs) == sizes_sum(a),
{
    lemma_record_parts(p, a);
    lemma_args_lens(a);
    assert forall|k: int| 0 <= k < szs.len() implies szs[k] == encode_utf8(a[k]).len() by {
        lemma_args_windows(a, k);
        lemma_sizes_sum_elem(a, k);
        lemma_u32le_read(encode_utf8(a[k]).len() as int);
        assert(b.subrange(sizes_start + 4 * k, sizes_start + 4 * k + 4) =~= arg_sizes(a).subrange(
            4 * k,
            4 * k + 4,
        ));
    }
    lemma_sum_matches(szs, a);
}

proof fn lemma_sum_matches(szs: Seq<u32>, a: Seq<Seq<char>>)
    requires
        szs.len() == a.len(),
        forall|k: int| 0 <= k < szs.len() ==> szs[k] == encode_utf8(a[k]).len(),
    ensures
        spec_sum_u32s(szs) == sizes_sum(a),
    decreases a.len(),
{
    if a.len() == 0 {
    } else {
        assert(forall|k: int|
            0 <= k < szs.drop_first().len() ==> szs.drop_first()[k] == encode_utf8(
                a.drop_first()[k],
            ).len());
        lemma_sum_matches(szs.drop_first(), a.drop_first());
        lemma_args_lens(a.drop_first());
    }
}

/// The body window for argument `k` starts where the running offset says.
proof fn lemma_body_offset_match(
    b: Seq<u8>,
    p: Seq<char>,
    a: Seq<Seq<char>>,
    szs: Seq<u32>,
    k: int,
)
    requires
        record_parts_fit(p, a),
        session_record(p, a) == b,
        szs.len() == a.len(),
        forall|t: int| 0 <= t < szs.len() ==> szs[t] == encode_utf8(a[t]).len(),
        0 <= k < a.len(),
    ensures
        spec_sum_u32s(szs.take(k)) == sizes_sum(a.take(k)),
        b.subrange(
            8 + encode_utf8(p).len() + 4 + 4 * a.len() + sizes_sum(a.take(k)),
            8 + encode_utf8(p).len() + 4 + 4 * a.len() + sizes_sum(a.take(k)) + encode_utf8(
                a[k],
            ).len(),
        ) == encode_utf8(a[k]),
{
    lemma_record_parts(p, a);
    lemma_args_lens(a);
    lemma_args_windows(a, k);
    lemma_sum_take_bound(a, k);
    assert(forall|t: int|
        0 <= t < szs.take(k).len() ==> szs.take(k)[t] == encode_utf8(a.take(k)[t]).len());
    lemma_sum_matches(szs.take(k), a.take(k));
    let base = 8 + encode_utf8(p).len() + 4 + 4 * a.len();
    assert(b.subrange(
        base + sizes_sum(a.take(k)),
        base + sizes_sum(a.take(k)) + encode_utf8(a[k]).len(),
    ) =~= arg_bodies(a).subrange(
        sizes_sum(a.take(k)),
        sizes_sum(a.take(k)) + encode_utf8(a[k]).len(),
    ));
}

} // verus!
