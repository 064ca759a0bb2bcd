//! Chunks and the text format they are saved in.
//!
//! A chunk is a 32 by 32 grid of blocks, stored row by row: cell `i` lies at
//! column `i % 32` and row `i / 32`. It is saved as the names of its blocks
//! joined by `+`, in cell order.

use vstd::prelude::*;
use crate::block::{
    BlockType, SEPARATOR, block_name, block_from_name, is_known_name, saved_as,
    lemma_name_has_no_separator, lemma_name_round_trip, block_from_token,
};
use crate::world::{Coord, Planet, PlanetSize, edge_of};
use crate::random::{roll_seeded, seeded_roll};

verus! {

/// Number of blocks in a chunk.
pub const CHUNKSIZE: usize = 1024;

/// A chunk together with the chunk-grid position it was placed at.
#[derive(Clone, Copy, Debug)]
pub struct ChunkWithOtherInfo {
    pub position: Coord,
    pub chunk: [BlockType; CHUNKSIZE],
}

/// The saved text of a sequence of blocks: their names joined by `+`.
pub open spec fn chunk_text(blocks: Seq<BlockType>) -> Seq<u8>
    decreases blocks.len(),
{
    if blocks.len() == 0 {
        seq![]
    } else if blocks.len() == 1 {
        block_name(blocks[0])
    } else {
        chunk_text(blocks.drop_last()) + seq![SEPARATOR] + block_name(blocks.last())
    }
}

/// The pieces of `s` between separators, as `str::split("+")` cuts them:
/// there is always at least one piece, and `n` separators give `n + 1` pieces.
pub open spec fn split_plus(s: Seq<u8>) -> Seq<Seq<u8>>
    decreases s.len(),
{
    if s.len() == 0 {
        seq![seq![]]
    } else {
        let prev = split_plus(s.drop_last());
        if s.last() == SEPARATOR {
            prev.push(seq![])
        } else {
            prev.update(prev.len() - 1, prev.last().push(s.last()))
        }
    }
}

/// The blocks a saved text is read as, one per piece.
pub open spec fn parsed_blocks(s: Seq<u8>) -> Seq<BlockType> {
    split_plus(s).map_values(|t: Seq<u8>| block_from_name(t))
}

/// The positions, in increasing order, of the pieces of `pieces` that are
/// not names the format knows.
pub open spec fn unknown_pieces(pieces: Seq<Seq<u8>>) -> Seq<usize>
    decreases pieces.len(),
{
    if pieces.len() == 0 {
        seq![]
    } else if is_known_name(pieces.last()) {
        unknown_pieces(pieces.drop_last())
    } else {
        unknown_pieces(pieces.drop_last()).push((pieces.len() - 1) as usize)
    }
}

pub proof fn lemma_split_nonempty(s: Seq<u8>)
    ensures
        split_plus(s).len() >= 1,
    decreases s.len(),
{
    if s.len() > 0 {
        lemma_split_nonempty(s.drop_last());
    }
}

/// Adding bytes to a text never removes pieces.
pub proof fn lemma_split_len_monotone(s: Seq<u8>, i: int, j: int)
    requires
        0 <= i <= j <= s.len(),
    ensures
        split_plus(s.take(i)).len() <= split_plus(s.take(j)).len(),
    decreases j - i,
{
    if i < j {
        lemma_split_len_monotone(s, i, j - 1);
        assert(s.take(j).drop_last() =~= s.take(j - 1));
        lemma_split_nonempty(s.take(j - 1));
    }
}

/// Appending bytes free of separators extends the last piece.
pub proof fn lemma_split_append_plain(s: Seq<u8>, t: Seq<u8>)
    requires
        forall|i: int| 0 <= i < t.len() ==> t[i] != SEPARATOR,
    ensures
        split_plus(s + t) == split_plus(s).update(
            split_plus(s).len() - 1,
            split_plus(s).last() + t,
        ),
    decreases t.len(),
{
    lemma_split_nonempty(s);
    if t.len() == 0 {
        assert(s + t =~= s);
        assert(split_plus(s).last() + t =~= split_plus(s).last());
        assert(split_plus(s).update(split_plus(s).len() - 1, split_plus(s).last())
            =~= split_plus(s));
    } else {
        lemma_split_append_plain(s, t.drop_last());
        assert((s + t).drop_last() =~= s + t.drop_last());
        assert(split_plus(s).last() + t =~= (split_plus(s).last() + t.drop_last()).push(t.last()));
        assert(split_plus(s + t) =~= split_plus(s).update(
            split_plus(s).len() - 1,
            split_plus(s).last() + t,
        ));
    }
}

/// Appending a separator starts a new, empty piece.
pub proof fn lemma_split_append_separator(s: Seq<u8>)
    ensures
        split_plus(s.push(SEPARATOR)) == split_plus(s).push(seq![]),
{
    assert(s.push(SEPARATOR).drop_last() =~= s);
}

/// The pieces of a saved chunk text are the names of its blocks.
pub proof fn lemma_chunk_text_pieces(blocks: Seq<BlockType>)
    requires
        blocks.len() >= 1,
    ensures
        split_plus(chunk_text(blocks)) == blocks.map_values(|b: BlockType| block_name(b)),
    decreases blocks.len(),
{
    lemma_name_has_no_separator(blocks.last());
    if blocks.len() == 1 {
        lemma_split_append_plain(seq![], block_name(blocks[0]));
        assert(seq![] + block_name(blocks[0]) =~= block_name(blocks[0]));
        assert(split_plus(Seq::<u8>::empty()) =~= seq![seq![]]);
        assert(Seq::<u8>::empty() + block_name(blocks[0]) =~= block_name(blocks[0]));
        assert(split_plus(chunk_text(blocks)) =~= blocks.map_values(|b: BlockType| block_name(b)));
    } else {
        let front = chunk_text(blocks.drop_last());
        lemma_chunk_text_pieces(blocks.drop_last());
        lemma_split_append_separator(front);
        assert(front + seq![SEPARATOR] =~= front.push(SEPARATOR));
        lemma_split_append_plain(front.push(SEPARATOR), block_name(blocks.last()));
        assert(Seq::<u8>::empty() + block_name(blocks.last()) =~= block_name(blocks.last()));
        assert(split_plus(chunk_text(blocks)) =~= blocks.map_values(|b: BlockType| block_name(b)));
    }
}

/// Reading a saved chunk back gives one block per saved block, each the
/// saved block except that marvin comes back as air; every piece is a known
/// name except the pieces of marvin blocks.
pub proof fn lemma_chunk_text_round_trip(blocks: Seq<BlockType>)
    requires
        blocks.len() >= 1,
    ensures
        split_plus(chunk_text(blocks)).len() == blocks.len(),
        parsed_blocks(chunk_text(blocks)) == blocks.map_values(|b: BlockType| saved_as(b)),
        forall|i: int|
            0 <= i < blocks.len() ==> (is_known_name(#[trigger] split_plus(chunk_text(blocks))[i])
                <==> blocks[i] != BlockType::Marvin),
{
    lemma_chunk_text_pieces(blocks);
    assert forall|i: int| 0 <= i < blocks.len() implies
        #[trigger] parsed_blocks(chunk_text(blocks))[i] == saved_as(blocks[i])
        && (is_known_name(split_plus(chunk_text(blocks))[i]) <==> blocks[i] != BlockType::Marvin)
    by {
        lemma_name_round_trip(blocks[i]);
    }
    assert(parsed_blocks(chunk_text(blocks)) =~= blocks.map_values(|b: BlockType| saved_as(b)));
}


/// The saved text of a whole chunk, as written to its file.
pub fn chunk_file_contents(chunk: &[BlockType; CHUNKSIZE]) -> (text: Vec<u8>)
    ensures
        text@ == chunk_text(chunk@),
{
    let mut text: Vec<u8> = Vec::new();
    let mut i: usize = 0;
    while i < CHUNKSIZE
        invariant
            i <= CHUNKSIZE,
            chunk@.len() == CHUNKSIZE,
            i == 0 ==> text@ == Seq::<u8>::empty(),
            0 < i < CHUNKSIZE ==> text@ == chunk_text(chunk@.take(i as int)) + seq![SEPARATOR],
            i == CHUNKSIZE ==> text@ == chunk_text(chunk@),
        decreases CHUNKSIZE - i,
    {
        let ghost before = text@;
        chunk[i].push_name(&mut text);
        proof {
            let taken = chunk@.take(i + 1);
            assert(taken.drop_last() =~= chunk@.take(i as int));
            assert(taken.last() == chunk@[i as int]);
            if i == 0 {
                assert(text@ =~= block_name(chunk@[0]));
            } else {
                assert(text@ =~= chunk_text(taken));
            }
            if i + 1 == CHUNKSIZE {
                assert(taken =~= chunk@);
            }
        }
        if i != CHUNKSIZE - 1 {
            text.push(SEPARATOR);
        }
        i = i + 1;
    }
    text
}

/// The number of `+`-separated pieces in `text`.
pub fn count_chunk_tokens(text: &[u8]) -> (n: usize)
    requires
        text@.len() < usize::MAX,
    ensures
        n == split_plus(text@).len(),
{
    let mut n: usize = 1;
    let mut i: usize = 0;
    proof {
        assert(text@.take(0) =~= Seq::<u8>::empty());
    }
    while i < text.len()
        invariant
            i <= text@.len() < usize::MAX,
            n == split_plus(text@.take(i as int)).len(),
            n <= i + 1,
        decreases text@.len() - i,
    {
        proof {
            assert(text@.take(i + 1).drop_last() =~= text@.take(i as int));
            assert(text@.take(i + 1).last() == text@[i as int]);
            lemma_split_nonempty(text@.take(i as int));
        }
        if text[i] == SEPARATOR {
            n = n + 1;
        }
        i = i + 1;
    }
    proof {
        assert(text@.take(text@.len() as int) =~= text@);
    }
    n
}

/// A chunk read from its saved text, with the positions of the pieces that
/// were not known block names (those cells read as air).
pub struct ParsedChunk {
    pub blocks: [BlockType; CHUNKSIZE],
    pub unreadable: Vec<usize>,
}

/// Reads a saved chunk text of exactly one piece per cell.
pub fn parse_chunk_text(text: &[u8]) -> (parsed: ParsedChunk)
    requires
        split_plus(text@).len() == CHUNKSIZE,
    ensures
        parsed.blocks@ == parsed_blocks(text@),
        parsed.unreadable@ == unknown_pieces(split_plus(text@)),
{
    let mut blocks: [BlockType; CHUNKSIZE] = [BlockType::Air; CHUNKSIZE];
    let mut unreadable: Vec<usize> = Vec::new();
    let mut k: usize = 0;
    let mut start: usize = 0;
    let mut i: usize = 0;
    proof {
        assert(text@.take(0) =~= Seq::<u8>::empty());
        assert(text@.subrange(0, 0) =~= Seq::<u8>::empty());
    }
    while i < text.len()
        invariant
            i <= text@.len(),
            start <= i,
            split_plus(text@).len() == CHUNKSIZE,
            k + 1 == split_plus(text@.take(i as int)).len(),
            text@.subrange(start as int, i as int) == split_plus(text@.take(i as int)).last(),
            forall|j: int| 0 <= j < k ==> blocks@[j] == block_from_name(
                #[trigger] split_plus(text@.take(i as int))[j],
            ),
            unreadable@ == unknown_pieces(split_plus(text@.take(i as int)).take(k as int)),
        decreases text@.len() - i,
    {
        let ghost before = split_plus(text@.take(i as int));
        proof {
            assert(text@.take(i + 1).drop_last() =~= text@.take(i as int));
            lemma_split_len_monotone(text@, i + 1, text@.len() as int);
            assert(text@.take(text@.len() as int) =~= text@);
        }
        if text[i] == SEPARATOR {
            let (b, known) = block_from_token(text, start, i);
            blocks[k] = b;
            if !known {
                unreadable.push(k);
            }
            proof {
                let after = split_plus(text@.take(i + 1));
                assert(after == before.push(seq![]));
                assert(after.take(k + 1) =~= before);
                assert(before.take(k as int) =~= before.drop_last());
            }
            k = k + 1;
            start = i + 1;
            proof {
                assert(text@.subrange(start as int, i + 1) =~= Seq::<u8>::empty());
            }
        } else {
            proof {
                let after = split_plus(text@.take(i + 1));
                assert(after == before.update(before.len() - 1, before.last().push(text@[i as int])));
                assert(text@.subrange(start as int, i + 1) =~= text@.subrange(start as int, i as int).push(text@[i as int]));
                assert(after.take(k as int) =~= before.take(k as int));
            }
        }
        i = i + 1;
    }
    proof {
        assert(text@.take(text@.len() as int) =~= text@);
    }
    let (b, known) = block_from_token(text, start, i);
    blocks[k] = b;
    if !known {
        unreadable.push(k);
    }
    proof {
        let pieces = split_plus(text@);
        assert(pieces.take(k as int) =~= pieces.drop_last());
        assert(pieces.take(k + 1) =~= pieces);
        assert(blocks@ =~= parsed_blocks(text@));
    }
    ParsedChunk { blocks, unreadable }
}


/// The decimal digits of `n`, most significant first.
pub open spec fn decimal_digits(n: nat) -> Seq<u8>
    decreases n,
{
    if n < 10 {
        seq![(48 + n) as u8]
    } else {
        decimal_digits(n / 10).push((48 + n % 10) as u8)
    }
}

/// `v` written in decimal, with a leading `-` when negative.
pub open spec fn decimal(v: int) -> Seq<u8> {
    if v < 0 {
        seq![45u8] + decimal_digits((-v) as nat)
    } else {
        decimal_digits(v as nat)
    }
}

/// The UTF-8 bytes of a planet's name.
pub open spec fn planet_name_bytes(planet: &Planet) -> Seq<u8> {
    vstd::utf8::encode_utf8(planet.name@)
}

/// Where the chunk at `position` of the planet named `name` is saved:
/// `Planets/<name>/x<X>y<Y>`.
pub open spec fn chunk_file_path(name: Seq<u8>, position: Coord) -> Seq<u8> {
    seq![80u8, 108u8, 97u8, 110u8, 101u8, 116u8, 115u8, 47u8] + name + seq![47u8, 120u8]
        + decimal(position.x as int) + seq![121u8] + decimal(position.y as int)
}

/// Decimal digits are ASCII digits, and there is one more of them for every
/// factor of ten.
pub proof fn lemma_decimal_digits_shape(n: nat)
    ensures
        decimal_digits(n).len() >= 1,
        n >= 10 ==> decimal_digits(n).len() >= 2,
        forall|i: int| 0 <= i < decimal_digits(n).len() ==> 48 <= #[trigger] decimal_digits(n)[i] <= 57,
    decreases n,
{
    if n >= 10 {
        lemma_decimal_digits_shape(n / 10);
    }
}

/// The number that ASCII digits `s` stand for, read in base ten with the
/// most significant digit first.
pub open spec fn decimal_value(s: Seq<u8>) -> int
    decreases s.len(),
{
    if s.len() == 0 {
        0
    } else {
        decimal_value(s.drop_last()) * 10 + (s.last() - 48)
    }
}

/// The decimal digits of `n` read back in base ten give `n`, and they have
/// no leading zero.
pub proof fn lemma_decimal_digits_value(n: nat)
    ensures
        decimal_value(decimal_digits(n)) == n,
        n > 0 ==> decimal_digits(n)[0] != 48u8,
    decreases n,
{
    let d = decimal_digits(n);
    if n < 10 {
        assert(d.drop_last() =~= Seq::<u8>::empty());
        assert(d.last() == 48 + n);
        assert(decimal_value(d) == decimal_value(d.drop_last()) * 10 + (d.last() - 48));
    } else {
        lemma_decimal_digits_value(n / 10);
        lemma_decimal_digits_shape(n / 10);
        assert(d.drop_last() =~= decimal_digits(n / 10));
        assert(d[0] == decimal_digits(n / 10)[0]);
        assert(d.last() == 48 + n % 10);
        assert(decimal_value(d) == decimal_value(d.drop_last()) * 10 + (d.last() - 48));
        assert(n == (n / 10) * 10 + n % 10);
    }
}

/// Different numbers have different decimal digits.
pub proof fn lemma_decimal_digits_injective(a: nat, b: nat)
    requires
        decimal_digits(a) == decimal_digits(b),
    ensures
        a == b,
    decreases a,
{
    lemma_decimal_digits_shape(a);
    lemma_decimal_digits_shape(b);
    if a >= 10 && b >= 10 {
        let da = decimal_digits(a);
        let db = decimal_digits(b);
        assert(da.last() == db.last());
        assert(da.drop_last() =~= decimal_digits(a / 10));
        assert(db.drop_last() =~= decimal_digits(b / 10));
        lemma_decimal_digits_injective(a / 10, b / 10);
        assert(da.last() == (48 + a % 10) as u8);
        assert(db.last() == (48 + b % 10) as u8);
        assert(a % 10 == b % 10);
        assert(a == (a / 10) * 10 + a % 10);
        assert(b == (b / 10) * 10 + b % 10);
        assert(a == b);
    } else if a < 10 && b < 10 {
        assert(decimal_digits(a)[0] == decimal_digits(b)[0]);
        assert(decimal_digits(a)[0] == (48 + a) as u8);
        assert(a == b);
    } else {
        assert(decimal_digits(a).len() != decimal_digits(b).len());
    }
}

/// Different numbers are written differently in decimal.
pub proof fn lemma_decimal_injective(a: int, b: int)
    requires
        decimal(a) == decimal(b),
    ensures
        a == b,
{
    if a < 0 && b < 0 {
        assert(decimal_digits((-a) as nat) =~= decimal(a).skip(1));
        assert(decimal_digits((-b) as nat) =~= decimal(b).skip(1));
        lemma_decimal_digits_injective((-a) as nat, (-b) as nat);
    } else if a >= 0 && b >= 0 {
        lemma_decimal_digits_injective(a as nat, b as nat);
    } else if a < 0 {
        lemma_decimal_digits_shape(b as nat);
        assert(decimal(a)[0] == 45u8);
        assert(48 <= decimal(b)[0]);
    } else {
        lemma_decimal_digits_shape(a as nat);
        assert(decimal(b)[0] == 45u8);
        assert(48 <= decimal(a)[0]);
    }
}

/// A text of the form `a + [m] + b`, with `m` nowhere in `a`, splits there
/// and nowhere else.
proof fn lemma_split_at_marker(a: Seq<u8>, b: Seq<u8>, c: Seq<u8>, d: Seq<u8>, m: u8)
    requires
        a + seq![m] + b == c + seq![m] + d,
        forall|i: int| 0 <= i < a.len() ==> a[i] != m,
        forall|i: int| 0 <= i < c.len() ==> c[i] != m,
    ensures
        a == c,
        b == d,
{
    let l = a + seq![m] + b;
    let r = c + seq![m] + d;
    if a.len() < c.len() {
        assert(l[a.len() as int] == m);
        assert(r[a.len() as int] == c[a.len() as int]);
    } else if c.len() < a.len() {
        assert(r[c.len() as int] == m);
        assert(l[c.len() as int] == a[c.len() as int]);
    } else {
        assert(a =~= l.take(a.len() as int));
        assert(c =~= r.take(c.len() as int));
        assert(b =~= l.skip(a.len() as int + 1));
        assert(d =~= r.skip(c.len() as int + 1));
    }
}

/// Chunks at different positions of a planet are saved to different files.
pub proof fn lemma_chunk_file_path_injective(name: Seq<u8>, p: Coord, q: Coord)
    requires
        chunk_file_path(name, p) == chunk_file_path(name, q),
    ensures
        p == q,
{
    let prefix = seq![80u8, 108u8, 97u8, 110u8, 101u8, 116u8, 115u8, 47u8] + name + seq![47u8, 120u8];
    let tail_p = decimal(p.x as int) + seq![121u8] + decimal(p.y as int);
    let tail_q = decimal(q.x as int) + seq![121u8] + decimal(q.y as int);
    assert(chunk_file_path(name, p) =~= prefix + tail_p);
    assert(chunk_file_path(name, q) =~= prefix + tail_q);
    assert(tail_p =~= (prefix + tail_p).skip(prefix.len() as int));
    assert(tail_q =~= (prefix + tail_q).skip(prefix.len() as int));
    assert forall|i: int| 0 <= i < decimal(p.x as int).len() implies decimal(p.x as int)[i] != 121u8 by {
        if p.x < 0 {
            lemma_decimal_digits_shape((-p.x) as nat);
            if i > 0 {
                assert(decimal(p.x as int)[i] == decimal_digits((-p.x) as nat)[i - 1]);
            }
        } else {
            lemma_decimal_digits_shape(p.x as nat);
        }
    }
    assert forall|i: int| 0 <= i < decimal(q.x as int).len() implies decimal(q.x as int)[i] != 121u8 by {
        if q.x < 0 {
            lemma_decimal_digits_shape((-q.x) as nat);
            if i > 0 {
                assert(decimal(q.x as int)[i] == decimal_digits((-q.x) as nat)[i - 1]);
            }
        } else {
            lemma_decimal_digits_shape(q.x as nat);
        }
    }
    lemma_split_at_marker(decimal(p.x as int), decimal(p.y as int), decimal(q.x as int), decimal(q.y as int), 121u8);
    lemma_decimal_injective(p.x as int, q.x as int);
    lemma_decimal_injective(p.y as int, q.y as int);
}

fn push_digits(out: &mut Vec<u8>, n: u64)
    ensures
        final(out)@ == old(out)@ + decimal_digits(n as nat),
    decreases n,
{
    if n >= 10 {
        push_digits(out, n / 10);
    }
    let d: u8 = (n % 10) as u8;
    out.push(48 + d);
    proof {
        if n >= 10 {
            assert(final(out)@ =~= old(out)@ + decimal_digits(n as nat));
        } else {
            assert(final(out)@ =~= old(out)@ + decimal_digits(n as nat));
        }
    }
}

fn push_decimal(out: &mut Vec<u8>, v: i32)
    ensures
        final(out)@ == old(out)@ + decimal(v as int),
{
    if v < 0 {
        out.push(45);
        let m: u64 = (0i64 - (v as i64)) as u64;
        push_digits(out, m);
        assert(final(out)@ =~= old(out)@ + decimal(v as int));
    } else {
        push_digits(out, v as u64);
    }
}

fn push_all(out: &mut Vec<u8>, bytes: &[u8])
    ensures
        final(out)@ == old(out)@ + bytes@,
{
    let mut i: usize = 0;
    while i < bytes.len()
        invariant
            i <= bytes@.len(),
            out@ == old(out)@ + bytes@.take(i as int),
        decreases bytes@.len() - i,
    {
        out.push(bytes[i]);
        i = i + 1;
        assert(out@ =~= old(out)@ + bytes@.take(i as int));
    }
    assert(bytes@.take(i as int) =~= bytes@);
}

/// The path, as UTF-8 bytes, of the file that holds the chunk at `position`.
pub fn chunk_path(planet: &Planet, position: Coord) -> (path: Vec<u8>)
    ensures
        path@ == chunk_file_path(planet_name_bytes(planet), position),
{
    let mut path: Vec<u8> = Vec::new();
    let prefix: [u8; 8] = [80, 108, 97, 110, 101, 116, 115, 47];
    push_all(&mut path, prefix.as_slice());
    push_all(&mut path, planet.name.as_str().as_bytes());
    path.push(47);
    path.push(120);
    push_decimal(&mut path, position.x);
    path.push(121);
    push_decimal(&mut path, position.y);
    assert(path@ =~= chunk_file_path(planet_name_bytes(planet), position));
    path
}

/// A file to write: its path and its bytes.
pub struct ChunkFileWrite {
    pub path: Vec<u8>,
    pub contents: Vec<u8>,
}

/// What saving a chunk writes: its text, to the file named after the
/// planet and the chunk's position.
pub fn writechunkfile(chunk_info: &ChunkWithOtherInfo, planet: &Planet) -> (write: ChunkFileWrite)
    ensures
        write.path@ == chunk_file_path(planet_name_bytes(planet), chunk_info.position),
        write.contents@ == chunk_text(chunk_info.chunk@),
{
    ChunkFileWrite {
        path: chunk_path(planet, chunk_info.position),
        contents: chunk_file_contents(&chunk_info.chunk),
    }
}

/// Side length of a chunk, in blocks.
pub const CHUNK_WIDTH: usize = 32;

/// The seed used for generating chunks that were never saved.
pub const TERRAIN_SEED: i32 = 6;

/// The seed the random generator is set to before rolling a chunk's terrain.
pub open spec fn terrain_seed(seed: i32, position: Coord) -> u64 {
    (seed as int + position.x as int + position.y as int) as u64
}

/// Computes `terrain_seed`.
pub fn terrain_seed_value(seed: i32, position: Coord) -> (s: u64)
    ensures
        s == terrain_seed(seed, position),
{
    let sum: i128 = seed as i128 + position.x as i128 + position.y as i128;
    #[verifier::truncate]
    (sum as u64)
}

/// Seeds the game's random generator with `terrain_seed(seed, position)`,
/// then rolls the terrain phase of the chunk at `position`: a number in
/// `0..100` that shifts its surface wave, and the same number every time for
/// the same seed and position.
pub fn terrain_roll(seed: i32, position: Coord) -> (r: i32)
    ensures
        r == seeded_roll(terrain_seed(seed, position), 100),
        0 <= r < 100,
{
    roll_seeded(terrain_seed_value(seed, position), 100)
}

/// The terrain roll of a chunk is reproducible: rolling again for the same
/// seed and position, whatever the generator did in between, gives the same
/// number, and so the same generated chunk.
pub proof fn lemma_terrain_roll_reproducible(seed: i32, position: Coord, first: i32, second: i32)
    requires
        first == seeded_roll(terrain_seed(seed, position), 100),
        second == seeded_roll(terrain_seed(seed, position), 100),
    ensures
        first == second,
{
}

/// The conditions under which generating the chunk at `position` stays
/// within machine integers.
pub open spec fn generation_fits(position: Coord, size: PlanetSize) -> bool {
    &&& size.x * 32 <= u32::MAX
    &&& size.y * 32 <= u32::MAX
    &&& edge_of(size.x) >= i32::MIN + 33
    &&& edge_of(size.y) >= i32::MIN + 33
    &&& i32::MIN <= position.x * 32
    &&& position.x * 32 + 31 <= i32::MAX
    &&& i32::MIN <= position.y * 32
    &&& position.y * 32 + 31 <= i32::MAX
}

/// Whether generating the chunk at `position` stays within machine integers
/// (`generation_fits`).
pub fn generation_in_range(position: Coord, size: PlanetSize) -> (r: bool)
    ensures
        r == generation_fits(position, size),
{
    if size.x > 0x7ff_ffff || size.y > 0x7ff_ffff {
        return false;
    }
    let ex: i32 = (size.x * 32) as i32;
    let ey: i32 = (size.y * 32) as i32;
    let px: i64 = position.x as i64 * 32;
    let py: i64 = position.y as i64 * 32;
    ex as i64 >= i32::MIN as i64 + 33 && ey as i64 >= i32::MIN as i64 + 33 && px >= i32::MIN as i64
        && px + 31 <= i32::MAX as i64 && py >= i32::MIN as i64 && py + 31 <= i32::MAX as i64
}

/// The block generated at cell `i` of the chunk at `position`. `crust[c]` is
/// the lowest planet row from which column `c` of the chunk is rock.
pub open spec fn generated_block(position: Coord, size: PlanetSize, crust: Seq<i32>, i: int) -> BlockType {
    let local_x = i % 32;
    let local_y = i / 32;
    let px = local_x + position.x * 32;
    let py = local_y + position.y * 32;
    let ex = edge_of(size.x);
    let ey = edge_of(size.y);
    if py == 0 {
        BlockType::Stone
    } else if py == 100 || py == 99 {
        BlockType::Air
    } else if px == ex - 33 || px == ex - 32 {
        BlockType::Stone
    } else if px == ex - 31 || px == 10 || px == 11 {
        BlockType::Air
    } else if py == ey - 33 {
        BlockType::Grass
    } else if py < ey - 33 && py >= crust[local_x] {
        BlockType::Stone
    } else {
        BlockType::Air
    }
}

/// All cells of a generated chunk.
pub open spec fn generated_blocks(position: Coord, size: PlanetSize, crust: Seq<i32>) -> Seq<BlockType> {
    Seq::new(CHUNKSIZE as nat, |i: int| generated_block(position, size, crust, i))
}

/// Generates the chunk at `position` of a planet that has no saved file for
/// it: a stone floor at row 0, an air gap at rows 99 and 100, stone walls
/// and an air gap around the planet's seam, an air shaft at columns 10 and
/// 11, grass at the top row and rock below it from each column's crust up.
pub fn generate_chunk(position: Coord, planet: &Planet, crust: &[i32; CHUNK_WIDTH]) -> (chunk: [BlockType; CHUNKSIZE])
    requires
        generation_fits(position, planet.size),
    ensures
        chunk@ == generated_blocks(position, planet.size, crust@),
{
    let mut chunk: [BlockType; CHUNKSIZE] = [BlockType::Air; CHUNKSIZE];
    let ex: i32 = (planet.size.x * 32) as i32;
    let ey: i32 = (planet.size.y * 32) as i32;
    let mut i: usize = 0;
    while i < CHUNKSIZE
        invariant
            i <= CHUNKSIZE,
            generation_fits(position, planet.size),
            ex == edge_of(planet.size.x),
            ey == edge_of(planet.size.y),
            crust@.len() == CHUNK_WIDTH,
            forall|j: int| 0 <= j < i ==> chunk@[j] == generated_block(position, planet.size, crust@, j),
        decreases CHUNKSIZE - i,
    {
        let local_x: i32 = (i % 32) as i32;
        let local_y: i32 = (i / 32) as i32;
        let planet_x: i32 = local_x + position.x * 32;
        let planet_y: i32 = local_y + position.y * 32;
        let block = if planet_y == 0 {
            BlockType::Stone
        } else if planet_y == 100 || planet_y == 99 {
            BlockType::Air
        } else if planet_x == ex - 33 || planet_x == ex - 32 {
            BlockType::Stone
        } else if planet_x == ex - 31 || planet_x == 10 || planet_x == 11 {
            BlockType::Air
        } else if planet_y == ey - 33 {
            BlockType::Grass
        } else if planet_y < ey - 33 && planet_y >= crust[(i % 32)] {
            BlockType::Stone
        } else {
            BlockType::Air
        };
        chunk[i] = block;
        i = i + 1;
    }
    assert(chunk@ =~= generated_blocks(position, planet.size, crust@));
    chunk
}

/// The layout of generated terrain, cell by cell. For the cell at column
/// `c` and row `r` of the chunk at `position` (cell `c + 32 * r`), lying at
/// planet column `px = 32 * position.x + c` and planet row
/// `py = 32 * position.y + r`, with `ex` and `ey` the planet's width and
/// height in blocks:
/// - row 0 is a stone floor;
/// - rows 99 and 100 are an air gap;
/// - elsewhere, columns `ex - 33` and `ex - 32` are a stone wall and column
///   `ex - 31` is air, at the planet's seam;
/// - elsewhere, columns 10 and 11 are an air shaft;
/// - elsewhere, row `ey - 33` is grass, the rows below it are stone from the
///   column's crust up and air under it, and the rows above it are air.
pub proof fn lemma_generated_layout(position: Coord, size: PlanetSize, crust: Seq<i32>, c: int, r: int)
    requires
        0 <= c < 32,
        0 <= r < 32,
    ensures
        ({
            let px = 32 * position.x + c;
            let py = 32 * position.y + r;
            let ex = ((size.x * 32) as i32) as int;
            let ey = ((size.y * 32) as i32) as int;
            let b = generated_blocks(position, size, crust)[c + 32 * r];
            let special_row = py == 0 || py == 99 || py == 100;
            let wall = px == ex - 33 || px == ex - 32;
            let open = px == ex - 31 || px == 10 || px == 11;
            &&& py == 0 ==> b == BlockType::Stone
            &&& (py == 99 || py == 100) ==> b == BlockType::Air
            &&& !special_row && wall ==> b == BlockType::Stone
            &&& !special_row && !wall && open ==> b == BlockType::Air
            &&& !special_row && !wall && !open && py == ey - 33 ==> b == BlockType::Grass
            &&& !special_row && !wall && !open && py < ey - 33 ==> b == (if py >= crust[c] {
                BlockType::Stone
            } else {
                BlockType::Air
            })
            &&& !special_row && !wall && !open && py > ey - 33 ==> b == BlockType::Air
        }),
{
    let i = c + 32 * r;
    vstd::arithmetic::div_mod::lemma_fundamental_div_mod_converse(i, 32, r, c);
    assert(i % 32 == c && i / 32 == r);
    assert(0 <= i < 1024);
}

/// Where a chunk's blocks come from when it is loaded: the text of its saved
/// file; no file at all (the chunk is generated, with the crust heights of
/// its 32 columns); or a file that could not be read.
pub enum ChunkSource {
    Saved(Vec<u8>),
    Missing([i32; CHUNK_WIDTH]),
    Unreadable,
}

/// A loaded chunk, with the positions of saved pieces that were not known
/// block names.
pub struct ChunkRead {
    pub info: ChunkWithOtherInfo,
    pub unreadable: Vec<usize>,
}

/// What loading a chunk requires of its source.
pub open spec fn source_readable(position: Coord, planet: &Planet, source: &ChunkSource) -> bool {
    match source {
        ChunkSource::Saved(text) => split_plus(text@).len() == CHUNKSIZE,
        ChunkSource::Missing(_) => generation_fits(position, planet.size),
        ChunkSource::Unreadable => true,
    }
}

/// Loads the chunk at `position`: a saved chunk is read from its text, a
/// chunk with no file is generated, and a file that cannot be read gives a
/// chunk of air.
pub fn readchunkfile(position: Coord, planet: &Planet, source: &ChunkSource) -> (read: ChunkRead)
    requires
        source_readable(position, planet, source),
    ensures
        read.info.position == position,
        match source {
            ChunkSource::Saved(text) => {
                &&& read.info.chunk@ == parsed_blocks(text@)
                &&& read.unreadable@ == unknown_pieces(split_plus(text@))
            },
            ChunkSource::Missing(crust) => {
                &&& read.info.chunk@ == generated_blocks(position, planet.size, crust@)
                &&& read.unreadable@.len() == 0
            },
            ChunkSource::Unreadable => {
                &&& read.info.chunk@ == Seq::new(CHUNKSIZE as nat, |i: int| BlockType::Air)
                &&& read.unreadable@.len() == 0
            },
        },
{
    match source {
        ChunkSource::Saved(text) => {
            let parsed = parse_chunk_text(text.as_slice());
            ChunkRead {
                info: ChunkWithOtherInfo { position, chunk: parsed.blocks },
                unreadable: parsed.unreadable,
            }
        },
        ChunkSource::Missing(crust) => {
            let chunk = generate_chunk(position, planet, crust);
            ChunkRead { info: ChunkWithOtherInfo { position, chunk }, unreadable: Vec::new() }
        },
        ChunkSource::Unreadable => {
            let chunk: [BlockType; CHUNKSIZE] = [BlockType::Air; CHUNKSIZE];
            assert(chunk@ =~= Seq::new(CHUNKSIZE as nat, |i: int| BlockType::Air));
            ChunkRead { info: ChunkWithOtherInfo { position, chunk }, unreadable: Vec::new() }
        },
    }
}

} // verus!
