//! The binary `.lod` cache format of a pyramid.
//!
//! Layout, all integers little-endian:
//! - header (24 bytes): magic `PTPL`, format version `u32` (1), total
//!   samples `u64`, factor `u32`, number of levels `u32`;
//! - per level: level index `u32`, step factor `u64`, pair count `u64`,
//!   then the pairs, each as the `u32` bit patterns of `min` and `max`,
//!   stored in the byte order of the machine that writes the file.

use vstd::prelude::*;

use vstd::bytes::{
    lemma_auto_spec_u32_to_from_le_bytes, lemma_auto_spec_u64_to_from_le_bytes, spec_u32_from_le_bytes, spec_u32_to_le_bytes, spec_u64_from_le_bytes, spec_u64_to_le_bytes,
    u32_from_le_bytes, u32_to_le_bytes, u64_from_le_bytes, u64_to_le_bytes,
};
use vstd::slice::slice_subrange;

use crate::arith::lemma_mul_le_iff_le_div;
use crate::byte_order::{
    lemma_word_bytes_len, lemma_word_roundtrip, native_is_little_endian, read_word, word_at,
    word_bytes, word_to_bytes,
};
use crate::error::TeraError;
use crate::pyramid::{LodLevel, LodPyramid};
use crate::simd::MinMaxPair;
use crate::text::{
    decimal_chars, hex_chars, lemma_decimal_chars_injective, lemma_decimal_chars_read_back,
    push_decimal, push_hex, string_of,
};
use vstd::utf8::encode_utf8;

verus! {

/// Version of the format written and accepted.
pub const CACHE_VERSION: u32 = 1;

/// The four magic bytes `PTPL` opening a cache file.
pub open spec fn magic_header() -> Seq<u8> {
    seq![0x50u8, 0x54u8, 0x50u8, 0x4cu8]
}

/// The `u32` stored little-endian at `off`.
pub open spec fn u32_at(b: Seq<u8>, off: int) -> u32 {
    spec_u32_from_le_bytes(b.subrange(off, off + 4))
}

/// The `u64` stored little-endian at `off`.
pub open spec fn u64_at(b: Seq<u8>, off: int) -> u64 {
    spec_u64_from_le_bytes(b.subrange(off, off + 8))
}

/// The pair stored at `off`, its words in the given byte order.
pub open spec fn pair_at(b: Seq<u8>, off: int, little: bool) -> MinMaxPair {
    MinMaxPair { min: word_at(b, off, little), max: word_at(b, off + 4, little) }
}

/// The `count` pairs stored from `off` on.
pub open spec fn pairs_at(b: Seq<u8>, off: int, count: nat, little: bool) -> Seq<MinMaxPair> {
    Seq::new(count, |i: int| pair_at(b, off + 8 * i, little))
}

/// Offset just past the level whose header starts at `off`.
pub open spec fn level_end(b: Seq<u8>, off: int) -> int {
    off + 20 + 8 * u64_at(b, off + 12)
}

/// The `k` levels starting at `off` lie within `b`.
pub open spec fn levels_fit(b: Seq<u8>, off: int, k: nat) -> bool
    decreases k,
{
    k == 0 || (off + 20 <= b.len() && level_end(b, off) <= b.len() && levels_fit(
        b,
        level_end(b, off),
        (k - 1) as nat,
    ))
}

/// What a level holds: its index, its step factor and its pairs.
pub open spec fn level_model(l: LodLevel) -> (usize, usize, Seq<MinMaxPair>) {
    (l.level_index, l.step_factor, l.pairs@)
}

/// The level stored at `off`.
pub open spec fn level_at(b: Seq<u8>, off: int, little: bool) -> (usize, usize, Seq<MinMaxPair>) {
    (
        u32_at(b, off) as usize,
        u64_at(b, off + 4) as usize,
        pairs_at(b, off + 20, u64_at(b, off + 12) as nat, little),
    )
}

/// The `k` levels stored from `off` on.
pub open spec fn levels_at(b: Seq<u8>, off: int, k: nat, little: bool) -> Seq<
    (usize, usize, Seq<MinMaxPair>),
>
    decreases k,
{
    if k == 0 {
        Seq::empty()
    } else {
        seq![level_at(b, off, little)] + levels_at(b, level_end(b, off), (k - 1) as nat, little)
    }
}

/// `b` is a readable cache: a full header with the magic bytes and the
/// supported version, followed by all the levels it announces (later bytes
/// are ignored).
pub open spec fn cache_valid(b: Seq<u8>) -> bool {
    &&& b.len() >= 24
    &&& b.subrange(0, 4) == magic_header()
    &&& u32_at(b, 4) == CACHE_VERSION
    &&& levels_fit(b, 24, u32_at(b, 20) as nat)
}

/// Why the levels from `off` on cannot be read: the first level whose
/// header or whose pairs run past the end.
pub open spec fn levels_error_message(b: Seq<u8>, off: int, k: nat) -> Seq<char>
    decreases k,
{
    if k == 0 {
        Seq::empty()
    } else if off + 20 > b.len() {
        "Fin de archivo prematuro al leer nivel LOD"@
    } else if level_end(b, off) > b.len() {
        "Segmento de datos de nivel LOD incompleto"@
    } else {
        levels_error_message(b, level_end(b, off), (k - 1) as nat)
    }
}

/// Why `b` is not a readable cache.
pub open spec fn cache_error_message(b: Seq<u8>) -> Seq<char> {
    if b.len() < 24 {
        "Archivo de caché `.lod` demasiado pequeño o corrupto"@
    } else if b.subrange(0, 4) != magic_header() {
        "Encabezado mágico inválido en archivo de caché `.lod`"@
    } else if u32_at(b, 4) != CACHE_VERSION {
        "Versión de caché no soportada ("@ + decimal_chars(u32_at(b, 4) as nat) + ", esperada 1)"@
    } else {
        levels_error_message(b, 24, u32_at(b, 20) as nat)
    }
}

/// The pyramid that a valid cache `b` holds, its pairs read in the given
/// byte order: its total samples, its factor (raised to at least 2) and its
/// levels.
pub open spec fn cache_pyramid_matches(b: Seq<u8>, p: LodPyramid, little: bool) -> bool {
    &&& p.total_samples == u64_at(b, 8) as usize
    &&& p.factor == (if (u32_at(b, 16) as usize) < 2 { 2 } else { u32_at(b, 16) as usize })
    &&& p.levels@.map_values(|l: LodLevel| level_model(l)) == levels_at(
        b,
        24,
        u32_at(b, 20) as nat,
        little,
    )
}

/// Offset basis of the 64-bit FNV-1a hash.
pub const FNV_OFFSET_BASIS: u64 = 0xcbf2_9ce4_8422_2325u64;

/// Prime of the 64-bit FNV-1a hash.
pub const FNV_PRIME: u64 = 0x0000_0100_0000_01b3u64;

/// 64-bit FNV-1a hash of `bytes`: starting from the offset basis, each byte
/// is xored in and the state multiplied by the prime modulo 2^64.
pub open spec fn fnv1a(bytes: Seq<u8>) -> u64
    decreases bytes.len(),
{
    if bytes.len() == 0 {
        FNV_OFFSET_BASIS
    } else {
        (fnv1a(bytes.drop_last()) ^ (bytes.last() as u64)).wrapping_mul(FNV_PRIME)
    }
}

/// Text hashed into a cache key: `"{path}:{size}:{mtime}"`.
pub open spec fn cache_key_input(path: Seq<char>, size: u64, mtime: u64) -> Seq<char> {
    path + ":"@ + decimal_chars(size as nat) + ":"@ + decimal_chars(mtime as nat)
}

/// Cache file name of a source: `lod_` and the 16 lower-case hexadecimal
/// digits of the FNV-1a hash of the UTF-8 bytes of its key input, then `.lod`.
pub open spec fn cache_key(path: Seq<char>, size: u64, mtime: u64) -> Seq<char> {
    "lod_"@ + hex_chars(fnv1a(encode_utf8(cache_key_input(path, size, mtime))) as nat, 16)
        + ".lod"@
}

/// The low 32 bits of `x`, as `x as u32` keeps them.
pub open spec fn low_u32(x: usize) -> u32 {
    (x as int % 0x1_0000_0000) as u32
}

/// Bytes of a run of pairs, their words in the given byte order.
pub open spec fn encode_pairs(ps: Seq<MinMaxPair>, little: bool) -> Seq<u8>
    decreases ps.len(),
{
    if ps.len() == 0 {
        Seq::empty()
    } else {
        encode_pairs(ps.drop_last(), little) + word_bytes(ps.last().min, little) + word_bytes(
            ps.last().max,
            little,
        )
    }
}

/// Bytes of one level.
pub open spec fn encode_level(l: LodLevel, little: bool) -> Seq<u8> {
    spec_u32_to_le_bytes(low_u32(l.level_index)) + spec_u64_to_le_bytes(l.step_factor as u64)
        + spec_u64_to_le_bytes(l.pairs.len() as u64) + encode_pairs(l.pairs@, little)
}

/// Bytes of a run of levels.
pub open spec fn encode_levels(ls: Seq<LodLevel>, little: bool) -> Seq<u8>
    decreases ls.len(),
{
    if ls.len() == 0 {
        Seq::empty()
    } else {
        encode_levels(ls.drop_last(), little) + encode_level(ls.last(), little)
    }
}

/// Bytes of the header of `p`.
pub open spec fn encode_header(p: LodPyramid) -> Seq<u8> {
    magic_header() + spec_u32_to_le_bytes(CACHE_VERSION) + spec_u64_to_le_bytes(
        p.total_samples as u64,
    ) + spec_u32_to_le_bytes(low_u32(p.factor)) + spec_u32_to_le_bytes(low_u32(p.levels.len()))
}

/// Bytes of the whole cache file of `p`, its pairs in the given byte order.
pub open spec fn encode_pyramid(p: LodPyramid, little: bool) -> Seq<u8> {
    encode_header(p) + encode_levels(p.levels@, little)
}

/// The low 32 bits of `x`.
fn low_bits(x: usize) -> (r: u32)
    ensures
        r == low_u32(x),
{
    (x as u64 % 0x1_0000_0000) as u32
}

/// Appends the bytes of `pairs` to `out`.
fn write_pairs(out: &mut Vec<u8>, pairs: &Vec<MinMaxPair>, little: bool)
    ensures
        final(out)@ == old(out)@ + encode_pairs(pairs@, little),
{
    let n = pairs.len();
    let mut i: usize = 0;
    while i < n
        invariant
            n == pairs@.len(),
            i <= n,
            out@ == old(out)@ + encode_pairs(pairs@.take(i as int), little),
        decreases n - i,
    {
        let p = pairs[i];
        let mut lo = word_to_bytes(p.min, little);
        let mut hi = word_to_bytes(p.max, little);
        out.append(&mut lo);
        out.append(&mut hi);
        assert(pairs@.take(i + 1).drop_last() =~= pairs@.take(i as int));
        i = i + 1;
    }
    assert(pairs@.take(n as int) =~= pairs@);
}

/// Persistence of pyramids in `.lod` cache files.
pub struct LodCache;

impl LodCache {
    /// The bytes of the `.lod` cache file of `pyramid`, its pairs stored in
    /// the byte order of the running machine.
    pub fn serialize_pyramid(pyramid: &LodPyramid) -> (r: Vec<u8>)
        ensures
            r@ == encode_pyramid(*pyramid, true) || r@ == encode_pyramid(*pyramid, false),
    {
        Self::serialize_pyramid_in(pyramid, native_is_little_endian())
    }

    /// The bytes of the `.lod` cache file of `pyramid`, its pairs stored
    /// least significant byte first when `little`, most significant first otherwise.
    pub fn serialize_pyramid_in(pyramid: &LodPyramid, little: bool) -> (r: Vec<u8>)
        ensures
            r@ == encode_pyramid(*pyramid, little),
    {
        let mut out: Vec<u8> = Vec::new();
        out.push(0x50u8);
        out.push(0x54u8);
        out.push(0x50u8);
        out.push(0x4cu8);
        let mut v = u32_to_le_bytes(CACHE_VERSION);
        out.append(&mut v);
        let mut t = u64_to_le_bytes(pyramid.total_samples as u64);
        out.append(&mut t);
        let mut f = u32_to_le_bytes(low_bits(pyramid.factor));
        out.append(&mut f);
        let mut c = u32_to_le_bytes(low_bits(pyramid.levels.len()));
        out.append(&mut c);
        assert(out@ =~= encode_header(*pyramid));
        let n = pyramid.levels.len();
        let mut i: usize = 0;
        while i < n
            invariant
                n == pyramid.levels@.len(),
                i <= n,
                out@ == encode_header(*pyramid) + encode_levels(pyramid.levels@.take(i as int), little),
            decreases n - i,
        {
            let level = &pyramid.levels[i];
            let ghost before = out@;
            let mut idx = u32_to_le_bytes(low_bits(level.level_index));
            out.append(&mut idx);
            let mut step = u64_to_le_bytes(level.step_factor as u64);
            out.append(&mut step);
            let mut count = u64_to_le_bytes(level.pairs.len() as u64);
            out.append(&mut count);
            write_pairs(&mut out, &level.pairs, little);
            assert(out@ =~= before + encode_level(*level, little));
            assert(pyramid.levels@.take(i + 1).drop_last() =~= pyramid.levels@.take(i as int));
            i = i + 1;
        }
        assert(pyramid.levels@.take(n as int) =~= pyramid.levels@);
        out
    }
}

/// The `u32` stored little-endian at `off`.
fn read_u32(bytes: &[u8], off: usize) -> (r: u32)
    requires
        off + 4 <= bytes@.len(),
    ensures
        r == u32_at(bytes@, off as int),
{
    let _n = bytes.len();
    u32_from_le_bytes(slice_subrange(bytes, off, off + 4))
}

/// The `u64` stored little-endian at `off`.
fn read_u64(bytes: &[u8], off: usize) -> (r: u64)
    requires
        off + 8 <= bytes@.len(),
    ensures
        r == u64_at(bytes@, off as int),
{
    let _n = bytes.len();
    u64_from_le_bytes(slice_subrange(bytes, off, off + 8))
}

/// 64-bit FNV-1a hash of `bytes`.
fn fnv1a_bytes(bytes: &[u8]) -> (h: u64)
    ensures
        h == fnv1a(bytes@),
{
    let n = bytes.len();
    let mut hasher: u64 = FNV_OFFSET_BASIS;
    let mut i: usize = 0;
    while i < n
        invariant
            n == bytes@.len(),
            i <= n,
            hasher == fnv1a(bytes@.take(i as int)),
        decreases n - i,
    {
        assert(bytes@.take(i + 1).drop_last() =~= bytes@.take(i as int));
        hasher = hasher ^ (bytes[i] as u64);
        hasher = hasher.wrapping_mul(FNV_PRIME);
        i = i + 1;
    }
    assert(bytes@.take(n as int) =~= bytes@);
    hasher
}

/// A `Lod` error with the given message.
fn lod_error(msg: &str) -> (r: TeraError)
    ensures
        r matches TeraError::Lod(m) && m@ == msg@,
{
    TeraError::Lod(string_of(msg))
}

impl LodCache {
    /// Deterministic cache file name for a source file, from the text of its
    /// path, its size in bytes and its modification time in seconds since the
    /// Unix epoch.
    pub fn compute_cache_key(path_text: &str, size_bytes: u64, mtime_secs: u64) -> (r: String)
        ensures
            r@ == cache_key(path_text@, size_bytes, mtime_secs),
    {
        let mut input = string_of(path_text);
        input.append(":");
        push_decimal(&mut input, size_bytes);
        input.append(":");
        push_decimal(&mut input, mtime_secs);
        assert(input@ =~= cache_key_input(path_text@, size_bytes, mtime_secs));
        let hash = fnv1a_bytes(input.as_str().as_bytes());
        let mut key = string_of("lod_");
        push_hex(&mut key, hash, 16);
        key.append(".lod");
        key
    }

    /// Reads a pyramid back from the bytes of a `.lod` cache file, its pairs
    /// read in the byte order of the running machine.
    ///
    /// Succeeds exactly on valid caches and then yields the pyramid they hold;
    /// every other input gives a `Lod` error saying why (file too short,
    /// wrong magic bytes, unsupported version, truncated level header or
    /// truncated pairs).
    pub fn parse_pyramid(bytes: &[u8]) -> (r: Result<LodPyramid, TeraError>)
        ensures
            r is Ok <==> cache_valid(bytes@),
            r matches Ok(p) ==> cache_pyramid_matches(bytes@, p, true) || cache_pyramid_matches(
                bytes@,
                p,
                false,
            ),
            r matches Err(e) ==> (e matches TeraError::Lod(msg) && msg@ == cache_error_message(bytes@)),
    {
        Self::parse_pyramid_in(bytes, native_is_little_endian())
    }

    /// Reads a pyramid back from the bytes of a `.lod` cache file, its pairs
    /// read least significant byte first when `little`, most significant
    /// first otherwise.
    ///
    /// Succeeds exactly on valid caches and then yields the pyramid they hold;
    /// every other input gives a `Lod` error saying why.
    pub fn parse_pyramid_in(bytes: &[u8], little: bool) -> (r: Result<LodPyramid, TeraError>)
        ensures
            r is Ok <==> cache_valid(bytes@),
            r matches Ok(p) ==> cache_pyramid_matches(bytes@, p, little),
            r matches Err(e) ==> (e matches TeraError::Lod(msg) && msg@ == cache_error_message(bytes@)),
    {
        let len = bytes.len();
        if len < 24 {
            return Err(lod_error("Archivo de caché `.lod` demasiado pequeño o corrupto"));
        }
        if bytes[0] != 0x50u8 || bytes[1] != 0x54u8 || bytes[2] != 0x50u8 || bytes[3] != 0x4cu8 {
            assert(bytes@.subrange(0, 4) != magic_header()) by {
                if bytes@.subrange(0, 4) == magic_header() {
                    assert(bytes@.subrange(0, 4)[0] == bytes@[0]);
                    assert(bytes@.subrange(0, 4)[1] == bytes@[1]);
                    assert(bytes@.subrange(0, 4)[2] == bytes@[2]);
                    assert(bytes@.subrange(0, 4)[3] == bytes@[3]);
                }
            }
            return Err(lod_error("Encabezado mágico inválido en archivo de caché `.lod`"));
        }
        assert(bytes@.subrange(0, 4) =~= magic_header());
        let version = read_u32(bytes, 4);
        if version != CACHE_VERSION {
            let mut msg = string_of("Versión de caché no soportada (");
            push_decimal(&mut msg, version as u64);
            msg.append(", esperada 1)");
            return Err(TeraError::Lod(msg));
        }
        let total_samples = #[verifier::truncate] (read_u64(bytes, 8) as usize);
        let factor = read_u32(bytes, 16) as usize;
        let num_levels = read_u32(bytes, 20) as usize;
        let ghost b = bytes@;
        let ghost num = num_levels as nat;
        let mut pyramid = LodPyramid::new(total_samples, factor);
        let mut offset: usize = 24;
        let mut k: usize = 0;
        while k < num_levels
            invariant
                b == bytes@,
                len == b.len(),
                num == num_levels,
                num == u32_at(b, 20) as nat,
                b.subrange(0, 4) == magic_header(),
                u32_at(b, 4) == CACHE_VERSION,
                pyramid.total_samples == u64_at(b, 8) as usize,
                factor == u32_at(b, 16) as usize,
                k <= num_levels,
                24 <= offset <= len,
                levels_error_message(b, 24, num) == levels_error_message(
                    b,
                    offset as int,
                    (num - k) as nat,
                ),
                levels_fit(b, 24, num) <==> levels_fit(b, offset as int, (num - k) as nat),
                pyramid.levels@.map_values(|l: LodLevel| level_model(l)) + levels_at(
                    b,
                    offset as int,
                    (num - k) as nat,
                    little,
                ) == levels_at(b, 24, num, little),
                pyramid.total_samples == total_samples,
                pyramid.factor == (if factor < 2 { 2 } else { factor }),
            decreases num_levels - k,
        {
            if len - offset < 20 {
                assert(!levels_fit(b, offset as int, (num - k) as nat));
                assert(num == u32_at(b, 20) as nat);
                assert(!levels_fit(b, 24, num));
                assert(levels_error_message(b, offset as int, (num - k) as nat)
                    == "Fin de archivo prematuro al leer nivel LOD"@);
                return Err(lod_error("Fin de archivo prematuro al leer nivel LOD"));
            }
            let level_index = read_u32(bytes, offset) as usize;
            let step_factor = #[verifier::truncate] (read_u64(bytes, offset + 4) as usize);
            let pairs_count = read_u64(bytes, offset + 12);
            let ghost start = offset as int;
            offset = offset + 20;
            proof {
                lemma_mul_le_iff_le_div(pairs_count as int, 8, (len - offset) as int);
            }
            if pairs_count > ((len - offset) / 8) as u64 {
                assert(level_end(b, start) > len);
                assert(!levels_fit(b, start, (num - k) as nat));
                assert(!levels_fit(b, 24, num));
                assert(levels_error_message(b, start, (num - k) as nat)
                    == "Segmento de datos de nivel LOD incompleto"@);
                return Err(lod_error("Segmento de datos de nivel LOD incompleto"));
            }
            let count = pairs_count as usize;
            let mut pairs: Vec<MinMaxPair> = Vec::new();
            let mut j: usize = 0;
            while j < count
                invariant
                    b == bytes@,
                    len == b.len(),
                    offset + 8 * count <= len,
                    j <= count,
                    pairs@ == pairs_at(b, offset as int, j as nat, little),
                decreases count - j,
            {
                let at = offset + 8 * j;
                let min = read_word(bytes, at, little);
                let max = read_word(bytes, at + 4, little);
                pairs.push(MinMaxPair { min, max });
                assert(pairs@ =~= pairs_at(b, offset as int, (j + 1) as nat, little));
                j = j + 1;
            }
            offset = offset + 8 * count;
            let ghost before = pyramid.levels@;
            let level = LodLevel { level_index, step_factor, pairs };
            assert(level_model(level) == level_at(b, start, little));
            pyramid.levels.push(level);
            proof {
                let rest = (num - k) as nat;
                assert(level_end(b, start) == offset);
                assert(levels_at(b, start, rest, little) == seq![level_at(b, start, little)] + levels_at(
                    b,
                    offset as int,
                    (rest - 1) as nat,
                    little,
                ));
                assert(pyramid.levels@.map_values(|l: LodLevel| level_model(l)) =~= before.map_values(
                    |l: LodLevel| level_model(l),
                ).push(level_model(level)));
                assert(pyramid.levels@.map_values(|l: LodLevel| level_model(l)) + levels_at(
                    b,
                    offset as int,
                    (rest - 1) as nat,
                    little,
                ) =~= before.map_values(|l: LodLevel| level_model(l)) + levels_at(b, start, rest, little));
            }
            k = k + 1;
        }
        assert(pyramid.levels@.map_values(|l: LodLevel| level_model(l)) =~= levels_at(b, 24, num, little));
        Ok(pyramid)
    }
}

/// Bytes of a run of pairs: eight per pair, the bounds in order.
proof fn lemma_encode_pairs(ps: Seq<MinMaxPair>, little: bool)
    ensures
        encode_pairs(ps, little).len() == 8 * ps.len(),
        forall|i: int, k: int|
            0 <= i < ps.len() && 0 <= k < 4 ==> #[trigger] encode_pairs(ps, little)[8 * i + k]
                == word_bytes(ps[i].min, little)[k] && encode_pairs(ps, little)[8 * i + 4 + k]
                == word_bytes(ps[i].max, little)[k],
    decreases ps.len(),
{
    if ps.len() > 0 {
        let init = ps.drop_last();
        lemma_encode_pairs(init, little);
        let e = encode_pairs(ps, little);
        let lo = word_bytes(ps.last().min, little);
        let hi = word_bytes(ps.last().max, little);
        lemma_word_bytes_len(ps.last().min, little);
        lemma_word_bytes_len(ps.last().max, little);
        assert(e == encode_pairs(init, little) + lo + hi);
        assert forall|i: int, k: int| 0 <= i < ps.len() && 0 <= k < 4 implies #[trigger] e[8 * i + k]
            == word_bytes(ps[i].min, little)[k] && e[8 * i + 4 + k] == word_bytes(
            ps[i].max,
            little,
        )[k] by {
            if i < ps.len() - 1 {
                assert(init[i] == ps[i]);
                assert(encode_pairs(init, little)[8 * i + k] == word_bytes(init[i].min, little)[k]);
            }
        }
    }
}

/// The levels' bytes read front to back: the first level, then the others.
proof fn lemma_encode_levels_front(ls: Seq<LodLevel>, little: bool)
    requires
        ls.len() > 0,
    ensures
        encode_levels(ls, little) == encode_level(ls[0], little) + encode_levels(ls.drop_first(), little),
    decreases ls.len(),
{
    if ls.len() > 1 {
        let x = ls.drop_last();
        let y = ls.drop_first();
        lemma_encode_levels_front(x, little);
        assert(x.drop_first() =~= y.drop_last());
        assert(x[0] == ls[0]);
        assert(y.last() == ls.last());
        assert(encode_levels(ls, little) == encode_levels(x, little) + encode_level(ls.last(), little));
        assert(encode_levels(y, little) == encode_levels(y.drop_last(), little) + encode_level(
            y.last(),
            little,
        ));
        assert(encode_levels(x, little) == encode_level(x[0], little) + encode_levels(
            x.drop_first(),
            little,
        ));
        assert(encode_levels(y, little) == encode_levels(x.drop_first(), little) + encode_level(
            ls.last(),
            little,
        ));
        let p0 = encode_level(ls[0], little);
        let mid = encode_levels(x.drop_first(), little);
        let q = encode_level(ls.last(), little);
        assert((p0 + mid) + q =~= p0 + (mid + q));
    } else {
        assert(ls.drop_last().len() == 0);
        assert(ls.drop_first().len() == 0);
        assert(encode_levels(ls.drop_last(), little) == Seq::<u8>::empty());
        assert(encode_levels(ls.drop_first(), little) == Seq::<u8>::empty());
        assert(ls.last() == ls[0]);
        assert(encode_levels(ls, little) =~= encode_level(ls[0], little) + encode_levels(
            ls.drop_first(),
            little,
        ));
    }
}

/// A level written at `off` reads back as itself.
proof fn lemma_level_decode(b: Seq<u8>, off: int, l: LodLevel, little: bool)
    requires
        0 <= off,
        off + encode_level(l, little).len() <= b.len(),
        b.subrange(off, off + encode_level(l, little).len()) == encode_level(l, little),
        l.level_index <= u32::MAX,
    ensures
        encode_level(l, little).len() == 20 + 8 * l.pairs@.len(),
        off + 20 <= b.len(),
        level_end(b, off) == off + encode_level(l, little).len(),
        level_at(b, off, little) == level_model(l),
{
    lemma_auto_spec_u32_to_from_le_bytes();
    lemma_auto_spec_u64_to_from_le_bytes();
    let ps = l.pairs@;
    lemma_encode_pairs(ps, little);
    let a = spec_u32_to_le_bytes(low_u32(l.level_index));
    let st = spec_u64_to_le_bytes(l.step_factor as u64);
    let c = spec_u64_to_le_bytes(l.pairs.len() as u64);
    assert(l.pairs.len() == ps.len());
    let d = encode_pairs(ps, little);
    let e = encode_level(l, little);
    assert(e == a + st + c + d);
    assert(a.len() == 4);
    assert(st.len() == 8);
    assert(c.len() == 8);
    assert(d.len() == 8 * ps.len());
    let n = e.len();
    assert forall|k: int| 0 <= k < n implies b[off + k] == #[trigger] e[k] by {
        assert(b.subrange(off, off + n)[k] == b[off + k]);
    }
    assert(b.subrange(off, off + 4) =~= a);
    assert forall|k: int| 0 <= k < 8 implies #[trigger] b.subrange(off + 4, off + 12)[k] == st[k] by {
        assert(e[4 + k] == (a + st + c)[4 + k]);
        assert((a + st + c)[4 + k] == (a + st)[4 + k]);
        assert((a + st)[4 + k] == st[k]);
        assert(b[off + 4 + k] == e[4 + k]);
    }
    assert forall|k: int| 0 <= k < 8 implies #[trigger] b.subrange(off + 12, off + 20)[k] == c[k] by {
        assert(e[12 + k] == (a + st + c)[12 + k]);
        assert((a + st + c)[12 + k] == c[k]);
        assert(b[off + 12 + k] == e[12 + k]);
    }
    assert(b.subrange(off + 4, off + 12) =~= st);
    assert(b.subrange(off + 12, off + 20) =~= c);
    assert(low_u32(l.level_index) == l.level_index);
    assert(u64_at(b, off + 12) == ps.len());
    assert forall|i: int| 0 <= i < ps.len() implies #[trigger] pairs_at(b, off + 20, ps.len(), little)[i]
        == ps[i] by {
        let wmin = word_bytes(ps[i].min, little);
        let wmax = word_bytes(ps[i].max, little);
        lemma_word_bytes_len(ps[i].min, little);
        lemma_word_bytes_len(ps[i].max, little);
        assert forall|k: int| 0 <= k < 4 implies #[trigger] b.subrange(off + 20 + 8 * i, off + 20 + 8 * i + 4)[k]
            == wmin[k] by {
            assert(e[20 + 8 * i + k] == d[8 * i + k]);
            assert(d[8 * i + k] == wmin[k]);
        }
        assert forall|k: int| 0 <= k < 4 implies #[trigger] b.subrange(off + 20 + 8 * i + 4, off + 20 + 8 * i + 8)[k]
            == wmax[k] by {
            assert(e[20 + 8 * i + 4 + k] == d[8 * i + 4 + k]);
            assert(d[8 * i + k] == wmin[k]);
            assert(d[8 * i + 4 + k] == wmax[k]);
        }
        assert(b.subrange(off + 20 + 8 * i, off + 20 + 8 * i + 4) =~= wmin);
        assert(b.subrange(off + 20 + 8 * i + 4, off + 20 + 8 * i + 8) =~= wmax);
        lemma_word_roundtrip(b, off + 20 + 8 * i, ps[i].min, little);
        lemma_word_roundtrip(b, off + 20 + 8 * i + 4, ps[i].max, little);
    }
    assert(pairs_at(b, off + 20, ps.len(), little) =~= ps);
}

/// Levels written at `off` read back as themselves.
proof fn lemma_levels_decode(b: Seq<u8>, off: int, ls: Seq<LodLevel>, little: bool)
    requires
        0 <= off,
        off + encode_levels(ls, little).len() <= b.len(),
        b.subrange(off, off + encode_levels(ls, little).len()) == encode_levels(ls, little),
        forall|k: int| 0 <= k < ls.len() ==> (#[trigger] ls[k]).level_index <= u32::MAX,
    ensures
        levels_fit(b, off, ls.len()),
        levels_at(b, off, ls.len(), little) == ls.map_values(|l: LodLevel| level_model(l)),
    decreases ls.len(),
{
    if ls.len() == 0 {
        assert(levels_at(b, off, 0, little) =~= ls.map_values(|l: LodLevel| level_model(l)));
    } else {
        lemma_encode_levels_front(ls, little);
        let first = encode_level(ls[0], little);
        let rest = ls.drop_first();
        let er = encode_levels(rest, little);
        let all = encode_levels(ls, little);
        assert(all == first + er);
        assert forall|k: int| 0 <= k < all.len() implies b[off + k] == #[trigger] all[k] by {
            assert(b.subrange(off, off + all.len())[k] == b[off + k]);
        }
        assert(b.subrange(off, off + first.len()) =~= first);
        lemma_level_decode(b, off, ls[0], little);
        let next = off + first.len();
        assert forall|k: int| 0 <= k < er.len() implies b[next + k] == #[trigger] er[k] by {
            assert(all[first.len() + k] == er[k]);
            assert(b[off + first.len() + k] == all[first.len() + k]);
        }
        assert(b.subrange(next, next + er.len()) =~= er);
        assert forall|k: int| 0 <= k < rest.len() implies (#[trigger] rest[k]).level_index <= u32::MAX by {
            assert(rest[k] == ls[k + 1]);
        }
        lemma_levels_decode(b, next, rest, little);
        assert(levels_at(b, off, ls.len(), little) =~= ls.map_values(|l: LodLevel| level_model(l)));
    }
}

/// Reading back what was written: the bytes of a pyramid, its pairs in
/// either byte order, form a valid cache, and reading them in the same
/// order gives back a pyramid with the same sample count, factor and
/// levels. This holds whenever the fields stored as 32-bit words fit in
/// them and the factor is at least 2 (the reader raises smaller factors
/// to 2).
pub proof fn lemma_cache_roundtrip(p: LodPyramid, little: bool)
    requires
        2 <= p.factor <= u32::MAX,
        p.levels@.len() <= u32::MAX,
        forall|k: int| 0 <= k < p.levels@.len() ==> (#[trigger] p.levels@[k]).level_index <= u32::MAX,
    ensures
        cache_valid(encode_pyramid(p, little)),
        cache_pyramid_matches(encode_pyramid(p, little), p, little),
{
    lemma_auto_spec_u32_to_from_le_bytes();
    lemma_auto_spec_u64_to_from_le_bytes();
    let b = encode_pyramid(p, little);
    let h = encode_header(p);
    let l = encode_levels(p.levels@, little);
    assert(b == h + l);
    let m = magic_header();
    let v = spec_u32_to_le_bytes(CACHE_VERSION);
    let t = spec_u64_to_le_bytes(p.total_samples as u64);
    let f = spec_u32_to_le_bytes(low_u32(p.factor));
    let c = spec_u32_to_le_bytes(low_u32(p.levels.len()));
    assert(h == m + v + t + f + c);
    assert(h.len() == 24);
    assert(b.subrange(0, 4) =~= m);
    assert(b.subrange(4, 8) =~= v);
    assert(b.subrange(8, 16) =~= t);
    assert(b.subrange(16, 20) =~= f);
    assert(b.subrange(20, 24) =~= c);
    assert(low_u32(p.factor) == p.factor);
    assert(low_u32(p.levels.len()) == p.levels@.len());
    assert(b.subrange(24, 24 + l.len() as int) =~= l);
    lemma_levels_decode(b, 24, p.levels@, little);
}

/// `a + ":" + b` with `a` free of `:` determines `a` and `b`.
proof fn lemma_split_at_colon(a1: Seq<char>, b1: Seq<char>, a2: Seq<char>, b2: Seq<char>)
    requires
        forall|i: int| 0 <= i < a1.len() ==> #[trigger] a1[i] != ':',
        forall|i: int| 0 <= i < a2.len() ==> #[trigger] a2[i] != ':',
        a1 + ":"@ + b1 == a2 + ":"@ + b2,
    ensures
        a1 == a2,
        b1 == b2,
{
    reveal_strlit(":");
    let x = a1 + ":"@ + b1;
    let y = a2 + ":"@ + b2;
    if a1.len() < a2.len() {
        assert(x[a1.len() as int] == ':');
        assert(y[a1.len() as int] == a2[a1.len() as int]);
    } else if a2.len() < a1.len() {
        assert(y[a2.len() as int] == ':');
        assert(x[a2.len() as int] == a1[a2.len() as int]);
    }
    assert(a1 =~= x.subrange(0, a1.len() as int));
    assert(a2 =~= y.subrange(0, a2.len() as int));
    assert(b1 =~= x.subrange(a1.len() as int + 1, x.len() as int));
    assert(b2 =~= y.subrange(a2.len() as int + 1, y.len() as int));
}

/// Different sources give different key inputs: for one path, the text
/// hashed into the key determines the full size in bytes and the
/// modification time it was made from.
pub proof fn lemma_cache_key_input_injective(path: Seq<char>, size1: u64, mtime1: u64, size2: u64, mtime2: u64)
    requires
        cache_key_input(path, size1, mtime1) == cache_key_input(path, size2, mtime2),
    ensures
        size1 == size2,
        mtime1 == mtime2,
{
    reveal_strlit(":");
    let d1 = decimal_chars(size1 as nat);
    let d2 = decimal_chars(size2 as nat);
    let t1 = decimal_chars(mtime1 as nat);
    let t2 = decimal_chars(mtime2 as nat);
    lemma_decimal_chars_read_back(size1 as nat);
    lemma_decimal_chars_read_back(size2 as nat);
    let x = cache_key_input(path, size1, mtime1);
    let y = cache_key_input(path, size2, mtime2);
    let k = path.len() + 1;
    assert(x.subrange(k as int, x.len() as int) =~= d1 + ":"@ + t1);
    assert(y.subrange(k as int, y.len() as int) =~= d2 + ":"@ + t2);
    assert forall|i: int| 0 <= i < d1.len() implies #[trigger] d1[i] != ':' by {
        assert('0' <= d1[i] <= '9');
    }
    assert forall|i: int| 0 <= i < d2.len() implies #[trigger] d2[i] != ':' by {
        assert('0' <= d2[i] <= '9');
    }
    lemma_split_at_colon(d1, t1, d2, t2);
    lemma_decimal_chars_injective(size1 as nat, size2 as nat);
    lemma_decimal_chars_injective(mtime1 as nat, mtime2 as nat);
}

} // verus!
