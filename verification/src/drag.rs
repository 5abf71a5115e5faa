//! Pure parts of outgoing file drags: the `text/uri-list` offered to drop
//! targets, and the packing of the last pointer position into one `i64`.

use vstd::prelude::*;

verus! {

/// The packed value that stands for "no pointer position".
pub const NO_POINTER_POSITION: i64 = i64::MIN;

/// The pointer position stored in `packed`: x in the high 32 bits, y in the low.
pub open spec fn unpacked_position(packed: i64) -> Option<(i32, i32)> {
    if packed == NO_POINTER_POSITION {
        None
    } else {
        Some(((packed >> 32) as i32, packed as i32))
    }
}

/// `x` and `y` packed into one value: x in the high 32 bits, y in the low.
pub open spec fn packed_position(x: i32, y: i32) -> i64 {
    ((x as i64) << 32u64) | ((y as u32) as i64)
}

/// The pointer position stored in `packed`, if one is.
pub fn pointer_position(packed: i64) -> (r: Option<(i32, i32)>)
    ensures
        r == unpacked_position(packed),
{
    if packed != NO_POINTER_POSITION {
        Some(((packed >> 32u64) as i32, packed as i32))
    } else {
        None
    }
}

/// `x` and `y` packed into one value for `pointer_position`.
pub fn pack_pointer_position(x: i32, y: i32) -> (r: i64)
    ensures
        r == packed_position(x, y),
{
    ((x as i64) << 32u64) | ((y as u32) as i64)
}

/// Unpacking a packed position gives it back, except for the one position
/// whose packing is the "no position" value.
pub proof fn lemma_pointer_position_round_trip(x: i32, y: i32)
    requires
        packed_position(x, y) != NO_POINTER_POSITION,
    ensures
        unpacked_position(packed_position(x, y)) == Some((x, y)),
{
    let p = packed_position(x, y);
    assert(((((x as i64) << 32u64) | ((y as u32) as i64)) >> 32u64) as i32 == x) by (bit_vector);
    assert(((((x as i64) << 32u64) | ((y as u32) as i64))) as i32 == y) by (bit_vector);
}

/// Whether `b` is written as itself in a file URI: an ASCII letter or
/// digit, or one of `-._~/`.
pub open spec fn is_unreserved(b: u8) -> bool {
    (0x30 <= b && b <= 0x39) || (0x41 <= b && b <= 0x5a) || (0x61 <= b && b <= 0x7a) || b == 0x2d
        || b == 0x2e || b == 0x5f || b == 0x7e || b == 0x2f
}

/// The upper-case hexadecimal digit for `n < 16`.
pub open spec fn hex_digit(n: u8) -> u8 {
    if n < 10 {
        (0x30 + n) as u8
    } else {
        (0x41 + n - 10) as u8
    }
}

/// The URI form of one byte of a path: itself, or `%` and two upper-case hex digits.
pub open spec fn uri_byte(b: u8) -> Seq<u8> {
    if is_unreserved(b) {
        seq![b]
    } else {
        seq![0x25u8, hex_digit(b / 16), hex_digit(b % 16)]
    }
}

/// The URI form of the bytes of a path.
pub open spec fn uri_path(p: Seq<u8>) -> Seq<u8>
    decreases p.len(),
{
    if p.len() == 0 {
        Seq::empty()
    } else {
        uri_path(p.drop_last()) + uri_byte(p.last())
    }
}

/// The `file://` prefix.
pub open spec fn file_scheme() -> Seq<u8> {
    seq![0x66u8, 0x69u8, 0x6cu8, 0x65u8, 0x3au8, 0x2fu8, 0x2fu8]
}

/// The line that offers one path: `file://`, the path, CR LF.
pub open spec fn uri_line(p: Seq<u8>) -> Seq<u8> {
    file_scheme() + uri_path(p) + seq![0x0du8, 0x0au8]
}

/// The `text/uri-list` offering `paths`, one line each.
pub open spec fn uri_list_of(paths: Seq<Seq<u8>>) -> Seq<u8>
    decreases paths.len(),
{
    if paths.len() == 0 {
        Seq::empty()
    } else {
        uri_list_of(paths.drop_last()) + uri_line(paths.last())
    }
}

/// The hexadecimal digit for `n < 16`.
fn hex(n: u8) -> (r: u8)
    requires
        n < 16,
    ensures
        r == hex_digit(n),
{
    if n < 10 {
        0x30 + n
    } else {
        0x41 + n - 10
    }
}

/// Appends the URI form of the path bytes `p`.
fn push_uri_path(out: &mut Vec<u8>, p: &[u8])
    ensures
        final(out)@ == old(out)@ + uri_path(p@),
{
    let ghost start = out@;
    let mut i: usize = 0;
    assert(p@.take(0) =~= Seq::<u8>::empty());
    assert(out@ =~= start + uri_path(p@.take(0)));
    while i < p.len()
        invariant
            i <= p@.len(),
            out@ == start + uri_path(p@.take(i as int)),
        decreases p@.len() - i,
    {
        let b = p[i];
        let ghost before = out@;
        if (0x30 <= b && b <= 0x39) || (0x41 <= b && b <= 0x5a) || (0x61 <= b && b <= 0x7a) || b
            == 0x2d || b == 0x2e || b == 0x5f || b == 0x7e || b == 0x2f {
            out.push(b);
        } else {
            out.push(0x25);
            out.push(hex(b / 16));
            out.push(hex(b % 16));
        }
        assert(out@ =~= before + uri_byte(b));
        assert(p@.take(i + 1).drop_last() =~= p@.take(i as int));
        i = i + 1;
        assert(out@ =~= start + uri_path(p@.take(i as int)));
    }
    assert(p@.take(p@.len() as int) =~= p@);
}

/// The views of a sequence of byte vectors.
pub open spec fn path_views(v: Seq<Vec<u8>>) -> Seq<Seq<u8>> {
    v.map_values(|p: Vec<u8>| p@)
}

/// The `text/uri-list` offering the paths (each given by its bytes).
pub fn uri_list(paths: &[Vec<u8>]) -> (r: Vec<u8>)
    ensures
        r@ == uri_list_of(path_views(paths@)),
{
    let ghost ps = path_views(paths@);
    let mut out: Vec<u8> = Vec::new();
    let mut i: usize = 0;
    assert(ps.take(0) =~= Seq::<Seq<u8>>::empty());
    while i < paths.len()
        invariant
            ps == path_views(paths@),
            i <= ps.len(),
            out@ == uri_list_of(ps.take(i as int)),
        decreases ps.len() - i,
    {
        let ghost before = out@;
        out.push(0x66);
        out.push(0x69);
        out.push(0x6c);
        out.push(0x65);
        out.push(0x3a);
        out.push(0x2f);
        out.push(0x2f);
        push_uri_path(&mut out, paths[i].as_slice());
        out.push(0x0d);
        out.push(0x0a);
        assert(ps[i as int] == paths@[i as int]@);
        assert(out@ =~= before + uri_line(ps[i as int]));
        assert(ps.take(i + 1).drop_last() =~= ps.take(i as int));
        i = i + 1;
    }
    assert(ps.take(ps.len() as int) =~= ps);
    out
}


/// The URI form of a path is the URI forms of its parts, one after the other.
pub proof fn lemma_uri_path_append(p: Seq<u8>, q: Seq<u8>)
    ensures
        uri_path(p + q) == uri_path(p) + uri_path(q),
    decreases q.len(),
{
    if q.len() == 0 {
        assert(p + q =~= p);
        assert(uri_path(p) + uri_path(q) =~= uri_path(p));
    } else {
        lemma_uri_path_append(p, q.drop_last());
        assert((p + q).drop_last() =~= p + q.drop_last());
        assert((p + q).last() == q.last());
        assert(uri_path(p + q) =~= uri_path(p) + uri_path(q));
    }
}

/// One byte of a path is written as itself when it is an ASCII letter or
/// digit or one of `-`, `.`, `_`, `~`, `/`; any other byte is written as
/// `%` and its value in two upper-case hexadecimal digits.
pub proof fn lemma_uri_path_byte(b: u8)
    ensures
        uri_path(seq![b]) == if (b >= 0x30 && b <= 0x39) || (b >= 0x41 && b <= 0x5a) || (b >= 0x61 && b
            <= 0x7a) || b == 0x2d || b == 0x2e || b == 0x5f || b == 0x2f || b == 0x7e {
            seq![b]
        } else {
            seq![
                0x25u8,
                (if b / 16 < 10 { 0x30 + b / 16 } else { 0x37 + b / 16 }) as u8,
                (if b % 16 < 10 { 0x30 + b % 16 } else { 0x37 + b % 16 }) as u8,
            ]
        },
{
    let p = seq![b];
    assert(p.drop_last() =~= Seq::<u8>::empty());
    assert(uri_path(p.drop_last()) =~= Seq::<u8>::empty());
    assert(uri_path(p) =~= uri_byte(b));
}


/// Every byte of the URI form of a path is an ASCII letter or digit or one
/// of `-`, `.`, `_`, `~`, `/` and `%`: nothing else appears literally.
pub proof fn lemma_uri_path_bytes_are_plain(p: Seq<u8>)
    ensures
        forall|k: int| 0 <= k < uri_path(p).len() ==> {
            let c = #[trigger] uri_path(p)[k];
            (c >= 0x30 && c <= 0x39) || (c >= 0x41 && c <= 0x5a) || (c >= 0x61 && c <= 0x7a) || c == 0x2d
                || c == 0x2e || c == 0x5f || c == 0x7e || c == 0x2f || c == 0x25
        },
    decreases p.len(),
{
    if p.len() > 0 {
        let t = p.drop_last();
        lemma_uri_path_bytes_are_plain(t);
        let u = uri_path(p);
        assert(u == uri_path(t) + uri_byte(p.last()));
        assert forall|k: int| 0 <= k < u.len() implies {
            let c = #[trigger] u[k];
            (c >= 0x30 && c <= 0x39) || (c >= 0x41 && c <= 0x5a) || (c >= 0x61 && c <= 0x7a) || c == 0x2d
                || c == 0x2e || c == 0x5f || c == 0x7e || c == 0x2f || c == 0x25
        } by {
            if k < uri_path(t).len() {
                assert(u[k] == uri_path(t)[k]);
            } else {
                assert(u[k] == uri_byte(p.last())[k - uri_path(t).len()]);
            }
        }
    }
}

} // verus!
