use vstd::prelude::*;
use crate::apple::Apple;
use crate::snek::Direction;

verus! {

// ---------------------------------------------------------------------------
// The persisted snapshot and its wire format.
//
// A snapshot holds the tick interval, one record per snake (direction,
// segment cells, target length, tick interval) and the apple roster. The
// wire format is a plain big-endian binary encoding: integers as fixed-width
// byte strings, a direction as one byte, a list as a 32-bit count followed
// by its items. Decoding accepts exactly the encodings and nothing else, so
// a snapshot survives a save/load round trip unchanged.
// ---------------------------------------------------------------------------

/// One snake's persisted record.
pub struct SnekData {
    pub direction: Direction,
    pub positions: Vec<(u32, u32)>,
    pub len: u32,
    pub tick_speed_ms: u64,
}

/// A full persisted snapshot.
pub struct GameData {
    pub snek_tick_speed_ms: u64,
    pub sneks: Vec<SnekData>,
    pub apples: Vec<Apple>,
}

/// Spec-level image of one snake's record.
#[verifier::ext_equal]
pub ghost struct SnekDataView {
    pub direction: Direction,
    pub positions: Seq<(u32, u32)>,
    pub len: u32,
    pub tick_speed_ms: u64,
}

/// Spec-level image of a snapshot.
#[verifier::ext_equal]
pub ghost struct GameDataView {
    pub snek_tick_speed_ms: u64,
    pub sneks: Seq<SnekDataView>,
    pub apples: Seq<Apple>,
}

impl View for SnekData {
    type V = SnekDataView;

    open spec fn view(&self) -> SnekDataView {
        SnekDataView {
            direction: self.direction,
            positions: self.positions@,
            len: self.len,
            tick_speed_ms: self.tick_speed_ms,
        }
    }
}

impl View for GameData {
    type V = GameDataView;

    open spec fn view(&self) -> GameDataView {
        GameDataView {
            snek_tick_speed_ms: self.snek_tick_speed_ms,
            sneks: Seq::new(self.sneks@.len(), |i: int| self.sneks@[i]@),
            apples: self.apples@,
        }
    }
}

/// The record that a live snake persists as.
pub open spec fn snek_snapshot(s: crate::snek::SnekView) -> SnekDataView {
    SnekDataView {
        direction: s.direction,
        positions: s.segments,
        len: s.len,
        tick_speed_ms: s.tick_speed_ms,
    }
}

/// Every list in the snapshot fits its 32-bit count prefix.
pub open spec fn game_data_bounded(g: GameDataView) -> bool {
    &&& g.sneks.len() < 0x100000000
    &&& g.apples.len() < 0x100000000
    &&& forall|i: int|
        0 <= i < g.sneks.len() ==> (#[trigger] g.sneks[i]).positions.len() < 0x100000000
}

// ------------------------------- encoding ---------------------------------

/// A 32-bit integer as four big-endian bytes.
pub open spec fn enc_u32(v: u32) -> Seq<u8> {
    seq![
        (v >> 24) as u8,
        ((v >> 16) & 0xff) as u8,
        ((v >> 8) & 0xff) as u8,
        (v & 0xff) as u8,
    ]
}

/// A 64-bit integer as eight big-endian bytes.
pub open spec fn enc_u64(v: u64) -> Seq<u8> {
    seq![
        (v >> 56) as u8,
        ((v >> 48) & 0xff) as u8,
        ((v >> 40) & 0xff) as u8,
        ((v >> 32) & 0xff) as u8,
        ((v >> 24) & 0xff) as u8,
        ((v >> 16) & 0xff) as u8,
        ((v >> 8) & 0xff) as u8,
        (v & 0xff) as u8,
    ]
}

/// A direction as one byte.
pub open spec fn enc_dir(d: Direction) -> Seq<u8> {
    match d {
        Direction::Up => seq![0u8],
        Direction::Down => seq![1u8],
        Direction::Right => seq![2u8],
        Direction::Left => seq![3u8],
    }
}

/// A grid cell as its two coordinates.
pub open spec fn enc_coord(c: (u32, u32)) -> Seq<u8> {
    enc_u32(c.0) + enc_u32(c.1)
}

/// A list of cells, in order, without a count.
pub open spec fn enc_coords(s: Seq<(u32, u32)>) -> Seq<u8>
    decreases s.len(),
{
    if s.len() == 0 {
        Seq::empty()
    } else {
        enc_coord(s.first()) + enc_coords(s.drop_first())
    }
}

/// An apple: its cell and its eaten flag as one byte.
pub open spec fn enc_apple(a: Apple) -> Seq<u8> {
    enc_u32(a.x) + enc_u32(a.y) + seq![if a.eaten { 1u8 } else { 0u8 }]
}

/// A list of apples, in order, without a count.
pub open spec fn enc_apples(s: Seq<Apple>) -> Seq<u8>
    decreases s.len(),
{
    if s.len() == 0 {
        Seq::empty()
    } else {
        enc_apple(s.first()) + enc_apples(s.drop_first())
    }
}

/// One snake record: direction, counted cell list, target length, tick
/// interval.
pub open spec fn enc_snek_rec(d: SnekDataView) -> Seq<u8> {
    enc_dir(d.direction) + enc_u32(d.positions.len() as u32) + enc_coords(d.positions) + enc_u32(
        d.len,
    ) + enc_u64(d.tick_speed_ms)
}

/// A list of snake records, in order, without a count.
pub open spec fn enc_sneks(s: Seq<SnekDataView>) -> Seq<u8>
    decreases s.len(),
{
    if s.len() == 0 {
        Seq::empty()
    } else {
        enc_snek_rec(s.first()) + enc_sneks(s.drop_first())
    }
}

/// A whole snapshot: tick interval, counted snake records, counted apples.
pub open spec fn enc_game(g: GameDataView) -> Seq<u8> {
    enc_u64(g.snek_tick_speed_ms) + enc_u32(g.sneks.len() as u32) + enc_sneks(g.sneks) + enc_u32(
        g.apples.len() as u32,
    ) + enc_apples(g.apples)
}

// ------------------------------- decoding ---------------------------------

/// Read four big-endian bytes at `p`.
pub open spec fn dec_u32(b: Seq<u8>, p: int) -> Option<(u32, int)> {
    if 0 <= p && p + 4 <= b.len() {
        Some(
            (
                ((b[p] as u32) << 24) | ((b[p + 1] as u32) << 16) | ((b[p + 2] as u32) << 8) | (b[p
                    + 3] as u32),
                p + 4,
            ),
        )
    } else {
        None
    }
}

/// Read eight big-endian bytes at `p`.
pub open spec fn dec_u64(b: Seq<u8>, p: int) -> Option<(u64, int)> {
    if 0 <= p && p + 8 <= b.len() {
        Some(
            (
                ((b[p] as u64) << 56) | ((b[p + 1] as u64) << 48) | ((b[p + 2] as u64) << 40) | ((
                b[p + 3] as u64) << 32) | ((b[p + 4] as u64) << 24) | ((b[p + 5] as u64) << 16) | ((
                b[p + 6] as u64) << 8) | (b[p + 7] as u64),
                p + 8,
            ),
        )
    } else {
        None
    }
}

/// Read one direction byte at `p`; only the four defined bytes are accepted.
pub open spec fn dec_dir(b: Seq<u8>, p: int) -> Option<(Direction, int)> {
    if 0 <= p && p + 1 <= b.len() {
        if b[p] == 0 {
            Some((Direction::Up, p + 1))
        } else if b[p] == 1 {
            Some((Direction::Down, p + 1))
        } else if b[p] == 2 {
            Some((Direction::Right, p + 1))
        } else if b[p] == 3 {
            Some((Direction::Left, p + 1))
        } else {
            None
        }
    } else {
        None
    }
}

/// Read one cell at `p`.
pub open spec fn dec_coord(b: Seq<u8>, p: int) -> Option<((u32, u32), int)> {
    match dec_u32(b, p) {
        None => None,
        Some((x, p1)) => match dec_u32(b, p1) {
            None => None,
            Some((y, p2)) => Some(((x, y), p2)),
        },
    }
}

/// Read `n` cells at `p`.
pub open spec fn dec_coords(b: Seq<u8>, p: int, n: nat) -> Option<(Seq<(u32, u32)>, int)>
    decreases n,
{
    if n == 0 {
        Some((Seq::empty(), p))
    } else {
        match dec_coord(b, p) {
            None => None,
            Some((c, p1)) => match dec_coords(b, p1, (n - 1) as nat) {
                None => None,
                Some((s, p2)) => Some((seq![c] + s, p2)),
            },
        }
    }
}

/// Read one apple at `p`; the flag byte must be zero or one.
pub open spec fn dec_apple(b: Seq<u8>, p: int) -> Option<(Apple, int)> {
    match dec_u32(b, p) {
        None => None,
        Some((x, p1)) => match dec_u32(b, p1) {
            None => None,
            Some((y, p2)) => if 0 <= p2 && p2 + 1 <= b.len() && (b[p2] == 0 || b[p2] == 1) {
                Some((Apple { x, y, eaten: b[p2] == 1 }, p2 + 1))
            } else {
                None
            },
        },
    }
}

/// Read `n` apples at `p`.
pub open spec fn dec_apples(b: Seq<u8>, p: int, n: nat) -> Option<(Seq<Apple>, int)>
    decreases n,
{
    if n == 0 {
        Some((Seq::empty(), p))
    } else {
        match dec_apple(b, p) {
            None => None,
            Some((a, p1)) => match dec_apples(b, p1, (n - 1) as nat) {
                None => None,
                Some((s, p2)) => Some((seq![a] + s, p2)),
            },
        }
    }
}

/// Read one snake record at `p`.
pub open spec fn dec_snek_rec(b: Seq<u8>, p: int) -> Option<(SnekDataView, int)> {
    match dec_dir(b, p) {
        None => None,
        Some((direction, p1)) => match dec_u32(b, p1) {
            None => None,
            Some((n, p2)) => match dec_coords(b, p2, n as nat) {
                None => None,
                Some((positions, p3)) => match dec_u32(b, p3) {
                    None => None,
                    Some((len, p4)) => match dec_u64(b, p4) {
                        None => None,
                        Some((tick_speed_ms, p5)) => Some(
                            (SnekDataView { direction, positions, len, tick_speed_ms }, p5),
                        ),
                    },
                },
            },
        },
    }
}

/// Read `n` snake records at `p`.
pub open spec fn dec_sneks(b: Seq<u8>, p: int, n: nat) -> Option<(Seq<SnekDataView>, int)>
    decreases n,
{
    if n == 0 {
        Some((Seq::empty(), p))
    } else {
        match dec_snek_rec(b, p) {
            None => None,
            Some((d, p1)) => match dec_sneks(b, p1, (n - 1) as nat) {
                None => None,
                Some((s, p2)) => Some((seq![d] + s, p2)),
            },
        }
    }
}

/// Read a whole snapshot at `p`.
pub open spec fn dec_game(b: Seq<u8>, p: int) -> Option<(GameDataView, int)> {
    match dec_u64(b, p) {
        None => None,
        Some((snek_tick_speed_ms, p1)) => match dec_u32(b, p1) {
            None => None,
            Some((ns, p2)) => match dec_sneks(b, p2, ns as nat) {
                None => None,
                Some((sneks, p3)) => match dec_u32(b, p3) {
                    None => None,
                    Some((na, p4)) => match dec_apples(b, p4, na as nat) {
                        None => None,
                        Some((apples, p5)) => Some(
                            (GameDataView { snek_tick_speed_ms, sneks, apples }, p5),
                        ),
                    },
                },
            },
        },
    }
}

/// What a byte string means as a snapshot: a full parse that consumes every
/// byte, or nothing.
pub open spec fn spec_decode_game(b: Seq<u8>) -> Option<GameDataView> {
    match dec_game(b, 0) {
        None => None,
        Some((g, p)) => if p == b.len() {
            Some(g)
        } else {
            None
        },
    }
}

// --------------------------- round-trip proof ------------------------------

/// A window of `b` that equals a concatenation splits into windows that
/// equal the parts.
proof fn lemma_subrange_split(b: Seq<u8>, p: int, e1: Seq<u8>, e2: Seq<u8>)
    requires
        0 <= p,
        p + e1.len() + e2.len() <= b.len(),
        b.subrange(p, p + e1.len() + e2.len()) == e1 + e2,
    ensures
        b.subrange(p, p + e1.len()) == e1,
        b.subrange(p + e1.len(), p + e1.len() + e2.len()) == e2,
{
    let whole = b.subrange(p, p + e1.len() + e2.len());
    assert forall|i: int| 0 <= i < e1.len() implies b.subrange(p, p + e1.len())[i] == e1[i] by {
        assert(whole[i] == (e1 + e2)[i]);
    }
    assert(b.subrange(p, p + e1.len()) =~= e1);
    assert forall|i: int|
        0 <= i < e2.len() implies b.subrange(p + e1.len(), p + e1.len() + e2.len())[i] == e2[i] by {
        assert(whole[e1.len() + i] == (e1 + e2)[e1.len() + i]);
    }
    assert(b.subrange(p + e1.len(), p + e1.len() + e2.len()) =~= e2);
}

/// Reading four bytes that encode `v` yields `v`.
proof fn lemma_dec_u32_at(b: Seq<u8>, p: int, v: u32)
    requires
        0 <= p,
        p + 4 <= b.len(),
        b.subrange(p, p + 4) == enc_u32(v),
    ensures
        dec_u32(b, p) == Some((v, p + 4)),
{
    assert(b[p] == enc_u32(v)[0] && b[p + 1] == enc_u32(v)[1] && b[p + 2] == enc_u32(v)[2] && b[p
        + 3] == enc_u32(v)[3]) by {
        assert(b.subrange(p, p + 4)[0] == b[p]);
        assert(b.subrange(p, p + 4)[1] == b[p + 1]);
        assert(b.subrange(p, p + 4)[2] == b[p + 2]);
        assert(b.subrange(p, p + 4)[3] == b[p + 3]);
    }
    assert(((((v >> 24) as u8) as u32) << 24) | (((((v >> 16) & 0xff) as u8) as u32) << 16) | ((((
    (v >> 8) & 0xff) as u8) as u32) << 8) | (((v & 0xff) as u8) as u32) == v) by (bit_vector);
}

/// Reading eight bytes that encode `v` yields `v`.
proof fn lemma_dec_u64_at(b: Seq<u8>, p: int, v: u64)
    requires
        0 <= p,
        p + 8 <= b.len(),
        b.subrange(p, p + 8) == enc_u64(v),
    ensures
        dec_u64(b, p) == Some((v, p + 8)),
{
    assert forall|i: int| 0 <= i < 8 implies b[p + i] == enc_u64(v)[i] by {
        assert(b.subrange(p, p + 8)[i] == b[p + i]);
    }
    assert(b[p] == enc_u64(v)[0] && b[p + 1] == enc_u64(v)[1] && b[p + 2] == enc_u64(v)[2] && b[p
        + 3] == enc_u64(v)[3] && b[p + 4] == enc_u64(v)[4] && b[p + 5] == enc_u64(v)[5] && b[p + 6]
        == enc_u64(v)[6] && b[p + 7] == enc_u64(v)[7]);
    assert(((((v >> 56) as u8) as u64) << 56) | (((((v >> 48) & 0xff) as u8) as u64) << 48) | ((((
    (v >> 40) & 0xff) as u8) as u64) << 40) | (((((v >> 32) & 0xff) as u8) as u64) << 32) | (((((v
        >> 24) & 0xff) as u8) as u64) << 24) | (((((v >> 16) & 0xff) as u8) as u64) << 16) | (((((
    v >> 8) & 0xff) as u8) as u64) << 8) | (((v & 0xff) as u8) as u64) == v) by (bit_vector);
}

/// Reading one byte that encodes `d` yields `d`.
proof fn lemma_dec_dir_at(b: Seq<u8>, p: int, d: Direction)
    requires
        0 <= p,
        p + 1 <= b.len(),
        b.subrange(p, p + 1) == enc_dir(d),
    ensures
        dec_dir(b, p) == Some((d, p + 1)),
{
    assert(b.subrange(p, p + 1)[0] == b[p]);
}

/// Reading eight bytes that encode a cell yields the cell.
proof fn lemma_dec_coord_at(b: Seq<u8>, p: int, c: (u32, u32))
    requires
        0 <= p,
        p + 8 <= b.len(),
        b.subrange(p, p + 8) == enc_coord(c),
    ensures
        dec_coord(b, p) == Some((c, p + 8)),
{
    lemma_subrange_split(b, p, enc_u32(c.0), enc_u32(c.1));
    lemma_dec_u32_at(b, p, c.0);
    lemma_dec_u32_at(b, p + 4, c.1);
}

/// The cell-list encoding is eight bytes per cell.
proof fn lemma_enc_coords_len(s: Seq<(u32, u32)>)
    ensures
        enc_coords(s).len() == 8 * s.len(),
    decreases s.len(),
{
    if s.len() > 0 {
        lemma_enc_coords_len(s.drop_first());
    }
}

/// Reading back an encoded cell list yields the list.
proof fn lemma_dec_coords_at(b: Seq<u8>, p: int, s: Seq<(u32, u32)>)
    requires
        0 <= p,
        p + enc_coords(s).len() <= b.len(),
        b.subrange(p, p + enc_coords(s).len()) == enc_coords(s),
    ensures
        dec_coords(b, p, s.len()) == Some((s, p + enc_coords(s).len())),
    decreases s.len(),
{
    if s.len() == 0 {
        assert(s =~= Seq::<(u32, u32)>::empty());
    } else {
        let rest = s.drop_first();
        lemma_enc_coords_len(s);
        lemma_enc_coords_len(rest);
        lemma_subrange_split(b, p, enc_coord(s.first()), enc_coords(rest));
        lemma_dec_coord_at(b, p, s.first());
        lemma_dec_coords_at(b, p + 8, rest);
        assert(seq![s.first()] + rest =~= s);
    }
}

/// Reading nine bytes that encode an apple yields the apple.
proof fn lemma_dec_apple_at(b: Seq<u8>, p: int, a: Apple)
    requires
        0 <= p,
        p + 9 <= b.len(),
        b.subrange(p, p + 9) == enc_apple(a),
    ensures
        dec_apple(b, p) == Some((a, p + 9)),
{
    let flag = seq![if a.eaten { 1u8 } else { 0u8 }];
    assert(enc_apple(a) == (enc_u32(a.x) + enc_u32(a.y)) + flag);
    lemma_subrange_split(b, p, enc_u32(a.x) + enc_u32(a.y), flag);
    lemma_subrange_split(b, p, enc_u32(a.x), enc_u32(a.y));
    lemma_dec_u32_at(b, p, a.x);
    lemma_dec_u32_at(b, p + 4, a.y);
    assert(b.subrange(p + 8, p + 9)[0] == b[p + 8]);
    assert(b[p + 8] == (if a.eaten { 1u8 } else { 0u8 }));
}

/// The apple-list encoding is nine bytes per apple.
proof fn lemma_enc_apples_len(s: Seq<Apple>)
    ensures
        enc_apples(s).len() == 9 * s.len(),
    decreases s.len(),
{
    if s.len() > 0 {
        lemma_enc_apples_len(s.drop_first());
    }
}

/// Reading back an encoded apple list yields the list.
proof fn lemma_dec_apples_at(b: Seq<u8>, p: int, s: Seq<Apple>)
    requires
        0 <= p,
        p + enc_apples(s).len() <= b.len(),
        b.subrange(p, p + enc_apples(s).len()) == enc_apples(s),
    ensures
        dec_apples(b, p, s.len()) == Some((s, p + enc_apples(s).len())),
    decreases s.len(),
{
    if s.len() == 0 {
        assert(s =~= Seq::<Apple>::empty());
    } else {
        let rest = s.drop_first();
        lemma_enc_apples_len(s);
        lemma_enc_apples_len(rest);
        lemma_subrange_split(b, p, enc_apple(s.first()), enc_apples(rest));
        lemma_dec_apple_at(b, p, s.first());
        lemma_dec_apples_at(b, p + 9, rest);
        assert(seq![s.first()] + rest =~= s);
    }
}

/// Reading back an encoded snake record yields the record.
proof fn lemma_dec_snek_rec_at(b: Seq<u8>, p: int, d: SnekDataView)
    requires
        0 <= p,
        d.positions.len() < 0x100000000,
        p + enc_snek_rec(d).len() <= b.len(),
        b.subrange(p, p + enc_snek_rec(d).len()) == enc_snek_rec(d),
    ensures
        dec_snek_rec(b, p) == Some((d, p + enc_snek_rec(d).len())),
{
    let e1 = enc_dir(d.direction);
    let e2 = enc_u32(d.positions.len() as u32);
    let e3 = enc_coords(d.positions);
    let e4 = enc_u32(d.len);
    let e5 = enc_u64(d.tick_speed_ms);
    lemma_enc_coords_len(d.positions);
    assert(e1.len() == 1);
    assert(enc_snek_rec(d) == (((e1 + e2) + e3) + e4) + e5);
    assert((((e1 + e2) + e3) + e4) + e5 =~= e1 + ((e2 + (e3 + (e4 + e5)))));
    lemma_subrange_split(b, p, e1, e2 + (e3 + (e4 + e5)));
    lemma_subrange_split(b, p + 1, e2, e3 + (e4 + e5));
    lemma_subrange_split(b, p + 5, e3, e4 + e5);
    lemma_subrange_split(b, p + 5 + e3.len() as int, e4, e5);
    lemma_dec_dir_at(b, p, d.direction);
    lemma_dec_u32_at(b, p + 1, d.positions.len() as u32);
    lemma_dec_coords_at(b, p + 5, d.positions);
    lemma_dec_u32_at(b, p + 5 + e3.len() as int, d.len);
    lemma_dec_u64_at(b, p + 9 + e3.len() as int, d.tick_speed_ms);
    assert((d.positions.len() as u32) as nat == d.positions.len());
}

/// Reading back an encoded snake-record list yields the list.
proof fn lemma_dec_sneks_at(b: Seq<u8>, p: int, s: Seq<SnekDataView>)
    requires
        0 <= p,
        forall|i: int| 0 <= i < s.len() ==> (#[trigger] s[i]).positions.len() < 0x100000000,
        p + enc_sneks(s).len() <= b.len(),
        b.subrange(p, p + enc_sneks(s).len()) == enc_sneks(s),
    ensures
        dec_sneks(b, p, s.len()) == Some((s, p + enc_sneks(s).len())),
    decreases s.len(),
{
    if s.len() == 0 {
        assert(s =~= Seq::<SnekDataView>::empty());
    } else {
        let rest = s.drop_first();
        assert(forall|i: int|
            0 <= i < rest.len() ==> (#[trigger] rest[i]).positions.len() < 0x100000000) by {
            assert(forall|i: int| 0 <= i < rest.len() ==> rest[i] == s[i + 1]);
        }
        lemma_subrange_split(b, p, enc_snek_rec(s.first()), enc_sneks(rest));
        lemma_dec_snek_rec_at(b, p, s.first());
        lemma_dec_sneks_at(b, p + enc_snek_rec(s.first()).len() as int, rest);
        assert(seq![s.first()] + rest =~= s);
    }
}

/// The five windows of an encoded snapshot hold the five component
/// encodings.
proof fn lemma_enc_game_parts(g: GameDataView)
    ensures
        enc_game(g).len() == 16 + enc_sneks(g.sneks).len() as int + enc_apples(g.apples).len() as int,
        enc_game(g).subrange(0, 8) == enc_u64(g.snek_tick_speed_ms),
        enc_game(g).subrange(8, 12) == enc_u32(g.sneks.len() as u32),
        enc_game(g).subrange(12, 12 + enc_sneks(g.sneks).len() as int) == enc_sneks(g.sneks),
        enc_game(g).subrange(
            12 + enc_sneks(g.sneks).len() as int,
            16 + enc_sneks(g.sneks).len() as int,
        ) == enc_u32(g.apples.len() as u32),
        enc_game(g).subrange(
            16 + enc_sneks(g.sneks).len() as int,
            16 + enc_sneks(g.sneks).len() as int + enc_apples(g.apples).len() as int,
        ) == enc_apples(g.apples),
{
    let b = enc_game(g);
    let e1 = enc_u64(g.snek_tick_speed_ms);
    let e2 = enc_u32(g.sneks.len() as u32);
    let e3 = enc_sneks(g.sneks);
    let e4 = enc_u32(g.apples.len() as u32);
    let e5 = enc_apples(g.apples);
    let q3 = 12 + e3.len() as int;
    assert(b == (((e1 + e2) + e3) + e4) + e5);
    assert(e1.len() == 8 && e2.len() == 4 && e4.len() == 4);
    assert((((e1 + e2) + e3) + e4) + e5 =~= e1 + (e2 + (e3 + (e4 + e5))));
    assert(b.subrange(0, b.len() as int) =~= b);
    lemma_subrange_split(b, 0, e1, e2 + (e3 + (e4 + e5)));
    lemma_subrange_split(b, 8, e2, e3 + (e4 + e5));
    lemma_subrange_split(b, 12, e3, e4 + e5);
    lemma_subrange_split(b, q3, e4, e5);
}

/// Round trip: a snapshot that is encoded and decoded again is reproduced
/// exactly — the same tick interval, and for every snake the same direction,
/// segment list, target length and tick interval, and the same apple list.
#[verifier::rlimit(100)]
pub proof fn lemma_snapshot_round_trip(g: GameDataView)
    requires
        game_data_bounded(g),
    ensures
        spec_decode_game(enc_game(g)) == Some(g),
{
    let b = enc_game(g);
    let e3 = enc_sneks(g.sneks);
    let e5 = enc_apples(g.apples);
    let q3 = 12 + e3.len() as int;
    lemma_enc_game_parts(g);
    lemma_dec_u64_at(b, 0, g.snek_tick_speed_ms);
    lemma_dec_u32_at(b, 8, g.sneks.len() as u32);
    lemma_dec_sneks_at(b, 12, g.sneks);
    lemma_dec_u32_at(b, q3, g.apples.len() as u32);
    lemma_dec_apples_at(b, q3 + 4, g.apples);
    assert((g.sneks.len() as u32) as nat == g.sneks.len());
    assert((g.apples.len() as u32) as nat == g.apples.len());
    assert(dec_u64(b, 0) == Some((g.snek_tick_speed_ms, 8int)));
    assert(dec_u32(b, 8) == Some((g.sneks.len() as u32, 12int)));
    assert(dec_sneks(b, 12, g.sneks.len()) == Some((g.sneks, q3)));
    assert(dec_u32(b, q3) == Some((g.apples.len() as u32, q3 + 4)));
    assert(dec_apples(b, q3 + 4, g.apples.len()) == Some((g.apples, q3 + 4 + e5.len())));
    assert(dec_game(b, 0) == Some(
        (
            GameDataView {
                snek_tick_speed_ms: g.snek_tick_speed_ms,
                sneks: g.sneks,
                apples: g.apples,
            },
            q3 + 4 + e5.len(),
        ),
    ));
    assert((GameDataView {
        snek_tick_speed_ms: g.snek_tick_speed_ms,
        sneks: g.sneks,
        apples: g.apples,
    }) =~= g);
    assert(q3 + 4 + e5.len() == b.len());
}

// ----------------------------- exec encoding -------------------------------

/// Appending one cell to a list appends its encoding.
proof fn lemma_enc_coords_push(s: Seq<(u32, u32)>, c: (u32, u32))
    ensures
        enc_coords(s.push(c)) == enc_coords(s) + enc_coord(c),
    decreases s.len(),
{
    if s.len() == 0 {
        assert(s.push(c).first() == c);
        assert(s.push(c).drop_first() =~= Seq::<(u32, u32)>::empty());
        assert(enc_coords(Seq::<(u32, u32)>::empty()) == Seq::<u8>::empty());
        assert(s =~= Seq::<(u32, u32)>::empty());
        assert(enc_coords(s.push(c)) == enc_coord(c) + Seq::<u8>::empty());
        assert(enc_coord(c) + Seq::<u8>::empty() =~= Seq::<u8>::empty() + enc_coord(c));
    } else {
        assert(s.push(c).drop_first() =~= s.drop_first().push(c));
        lemma_enc_coords_push(s.drop_first(), c);
        assert(enc_coord(s.first()) + (enc_coords(s.drop_first()) + enc_coord(c)) =~= (enc_coord(
            s.first(),
        ) + enc_coords(s.drop_first())) + enc_coord(c));
    }
}

/// Appending one apple to a list appends its encoding.
proof fn lemma_enc_apples_push(s: Seq<Apple>, a: Apple)
    ensures
        enc_apples(s.push(a)) == enc_apples(s) + enc_apple(a),
    decreases s.len(),
{
    if s.len() == 0 {
        assert(s.push(a).first() == a);
        assert(s.push(a).drop_first() =~= Seq::<Apple>::empty());
        assert(enc_apples(Seq::<Apple>::empty()) == Seq::<u8>::empty());
        assert(s =~= Seq::<Apple>::empty());
        assert(enc_apples(s.push(a)) == enc_apple(a) + Seq::<u8>::empty());
        assert(enc_apple(a) + Seq::<u8>::empty() =~= Seq::<u8>::empty() + enc_apple(a));
    } else {
        assert(s.push(a).drop_first() =~= s.drop_first().push(a));
        lemma_enc_apples_push(s.drop_first(), a);
        assert(enc_apple(s.first()) + (enc_apples(s.drop_first()) + enc_apple(a)) =~= (enc_apple(
            s.first(),
        ) + enc_apples(s.drop_first())) + enc_apple(a));
    }
}

/// Appending one snake record to a list appends its encoding.
proof fn lemma_enc_sneks_push(s: Seq<SnekDataView>, d: SnekDataView)
    ensures
        enc_sneks(s.push(d)) == enc_sneks(s) + enc_snek_rec(d),
    decreases s.len(),
{
    if s.len() == 0 {
        assert(s.push(d).first() == d);
        assert(s.push(d).drop_first() =~= Seq::<SnekDataView>::empty());
        assert(enc_sneks(Seq::<SnekDataView>::empty()) == Seq::<u8>::empty());
        assert(s =~= Seq::<SnekDataView>::empty());
        assert(enc_sneks(s.push(d)) == enc_snek_rec(d) + Seq::<u8>::empty());
        assert(enc_snek_rec(d) + Seq::<u8>::empty() =~= Seq::<u8>::empty() + enc_snek_rec(d));
    } else {
        assert(s.push(d).drop_first() =~= s.drop_first().push(d));
        lemma_enc_sneks_push(s.drop_first(), d);
        assert(enc_snek_rec(s.first()) + (enc_sneks(s.drop_first()) + enc_snek_rec(d)) =~= (
        enc_snek_rec(s.first()) + enc_sneks(s.drop_first())) + enc_snek_rec(d));
    }
}

/// Append the four big-endian bytes of `v`.
fn push_u32(out: &mut Vec<u8>, v: u32)
    ensures
        final(out)@ == old(out)@ + enc_u32(v),
{
    proof {
        assert(v >> 24 < 256 && (v >> 16) & 0xff < 256 && (v >> 8) & 0xff < 256 && v & 0xff
            < 256) by (bit_vector);
    }
    out.push((v >> 24) as u8);
    out.push(((v >> 16) & 0xff) as u8);
    out.push(((v >> 8) & 0xff) as u8);
    out.push((v & 0xff) as u8);
    proof {
        assert(out@ =~= old(out)@ + enc_u32(v));
    }
}

/// Append the eight big-endian bytes of `v`.
fn push_u64(out: &mut Vec<u8>, v: u64)
    ensures
        final(out)@ == old(out)@ + enc_u64(v),
{
    proof {
        assert(v >> 56 < 256 && (v >> 48) & 0xff < 256 && (v >> 40) & 0xff < 256 && (v >> 32)
            & 0xff < 256 && (v >> 24) & 0xff < 256 && (v >> 16) & 0xff < 256 && (v >> 8) & 0xff
            < 256 && v & 0xff < 256) by (bit_vector);
    }
    out.push((v >> 56) as u8);
    out.push(((v >> 48) & 0xff) as u8);
    out.push(((v >> 40) & 0xff) as u8);
    out.push(((v >> 32) & 0xff) as u8);
    out.push(((v >> 24) & 0xff) as u8);
    out.push(((v >> 16) & 0xff) as u8);
    out.push(((v >> 8) & 0xff) as u8);
    out.push((v & 0xff) as u8);
    proof {
        assert(out@ =~= old(out)@ + enc_u64(v));
    }
}

/// Append the direction byte.
fn push_dir(out: &mut Vec<u8>, d: Direction)
    ensures
        final(out)@ == old(out)@ + enc_dir(d),
{
    match d {
        Direction::Up => out.push(0),
        Direction::Down => out.push(1),
        Direction::Right => out.push(2),
        Direction::Left => out.push(3),
    }
    proof {
        assert(out@ =~= old(out)@ + enc_dir(d));
    }
}

/// Append one snake record.
fn push_snek_rec(out: &mut Vec<u8>, d: &SnekData)
    requires
        d@.positions.len() < 0x100000000,
    ensures
        final(out)@ == old(out)@ + enc_snek_rec(d@),
{
    push_dir(out, d.direction);
    push_u32(out, d.positions.len() as u32);
    let ghost base = out@;
    let mut k: usize = 0;
    while k < d.positions.len()
        invariant
            k <= d@.positions.len(),
            out@ == base + enc_coords(d@.positions.take(k as int)),
        decreases d@.positions.len() - k,
    {
        let c = d.positions[k];
        push_u32(out, c.0);
        push_u32(out, c.1);
        proof {
            lemma_enc_coords_push(d@.positions.take(k as int), c);
            assert(d@.positions.take(k as int).push(c) =~= d@.positions.take(k as int + 1));
            assert(out@ =~= base + enc_coords(d@.positions.take(k as int + 1)));
        }
        k = k + 1;
    }
    proof {
        assert(d@.positions.take(d@.positions.len() as int) =~= d@.positions);
    }
    push_u32(out, d.len);
    push_u64(out, d.tick_speed_ms);
    proof {
        assert(out@ =~= old(out)@ + enc_snek_rec(d@));
    }
}

/// Append one apple.
fn push_apple(out: &mut Vec<u8>, a: &Apple)
    ensures
        final(out)@ == old(out)@ + enc_apple(*a),
{
    push_u32(out, a.x);
    push_u32(out, a.y);
    if a.eaten {
        out.push(1);
    } else {
        out.push(0);
    }
    proof {
        assert(out@ =~= old(out)@ + enc_apple(*a));
    }
}

/// Encode a snapshot as bytes. The result decodes back to exactly this
/// snapshot.
pub fn encode_game_data(d: &GameData) -> (r: Vec<u8>)
    requires
        game_data_bounded(d@),
    ensures
        r@ == enc_game(d@),
{
    let mut out: Vec<u8> = Vec::new();
    push_u64(&mut out, d.snek_tick_speed_ms);
    push_u32(&mut out, d.sneks.len() as u32);
    let ghost base = out@;
    let mut i: usize = 0;
    while i < d.sneks.len()
        invariant
            i <= d@.sneks.len(),
            game_data_bounded(d@),
            base == enc_u64(d@.snek_tick_speed_ms) + enc_u32(d@.sneks.len() as u32),
            out@ == base + enc_sneks(d@.sneks.take(i as int)),
        decreases d@.sneks.len() - i,
    {
        proof {
            assert(d@.sneks[i as int].positions.len() < 0x100000000);
            assert(d@.sneks[i as int] == d.sneks@[i as int]@);
        }
        push_snek_rec(&mut out, &d.sneks[i]);
        proof {
            lemma_enc_sneks_push(d@.sneks.take(i as int), d@.sneks[i as int]);
            assert(d@.sneks.take(i as int).push(d@.sneks[i as int]) =~= d@.sneks.take(
                i as int + 1,
            ));
            assert(out@ =~= base + enc_sneks(d@.sneks.take(i as int + 1)));
        }
        i = i + 1;
    }
    proof {
        assert(d@.sneks.take(d@.sneks.len() as int) =~= d@.sneks);
    }
    push_u32(&mut out, d.apples.len() as u32);
    let ghost base2 = out@;
    let mut j: usize = 0;
    while j < d.apples.len()
        invariant
            j <= d@.apples.len(),
            out@ == base2 + enc_apples(d@.apples.take(j as int)),
        decreases d@.apples.len() - j,
    {
        let a = d.apples[j];
        push_apple(&mut out, &a);
        proof {
            lemma_enc_apples_push(d@.apples.take(j as int), a);
            assert(d@.apples.take(j as int).push(a) =~= d@.apples.take(j as int + 1));
            assert(out@ =~= base2 + enc_apples(d@.apples.take(j as int + 1)));
        }
        j = j + 1;
    }
    proof {
        assert(d@.apples.take(d@.apples.len() as int) =~= d@.apples);
        assert(out@ =~= enc_game(d@));
    }
    out
}

// ----------------------------- exec decoding -------------------------------

/// Read four big-endian bytes.
fn read_u32(b: &Vec<u8>, p: usize) -> (r: Option<(u32, usize)>)
    ensures
        match r {
            Some(t) => dec_u32(b@, p as int) == Some((t.0, t.1 as int)) && t.1 <= b@.len(),
            None => dec_u32(b@, p as int) == None::<(u32, int)>,
        },
{
    if p <= b.len() && b.len() - p >= 4 {
        let v = ((b[p] as u32) << 24u32) | ((b[p + 1] as u32) << 16u32) | ((b[p + 2] as u32)
            << 8u32) | (b[p + 3] as u32);
        Some((v, p + 4))
    } else {
        None
    }
}

/// Read eight big-endian bytes.
fn read_u64(b: &Vec<u8>, p: usize) -> (r: Option<(u64, usize)>)
    ensures
        match r {
            Some(t) => dec_u64(b@, p as int) == Some((t.0, t.1 as int)) && t.1 <= b@.len(),
            None => dec_u64(b@, p as int) == None::<(u64, int)>,
        },
{
    if p <= b.len() && b.len() - p >= 8 {
        let v = ((b[p] as u64) << 56u64) | ((b[p + 1] as u64) << 48u64) | ((b[p + 2] as u64)
            << 40u64) | ((b[p + 3] as u64) << 32u64) | ((b[p + 4] as u64) << 24u64) | ((b[p
            + 5] as u64) << 16u64) | ((b[p + 6] as u64) << 8u64) | (b[p + 7] as u64);
        Some((v, p + 8))
    } else {
        None
    }
}

/// Read one direction byte.
fn read_dir(b: &Vec<u8>, p: usize) -> (r: Option<(Direction, usize)>)
    ensures
        match r {
            Some(t) => dec_dir(b@, p as int) == Some((t.0, t.1 as int)) && t.1 <= b@.len(),
            None => dec_dir(b@, p as int) == None::<(Direction, int)>,
        },
{
    if p < b.len() {
        let byte = b[p];
        if byte == 0 {
            Some((Direction::Up, p + 1))
        } else if byte == 1 {
            Some((Direction::Down, p + 1))
        } else if byte == 2 {
            Some((Direction::Right, p + 1))
        } else if byte == 3 {
            Some((Direction::Left, p + 1))
        } else {
            None
        }
    } else {
        None
    }
}

/// Read one apple.
fn read_apple(b: &Vec<u8>, p: usize) -> (r: Option<(Apple, usize)>)
    ensures
        match r {
            Some(t) => dec_apple(b@, p as int) == Some((t.0, t.1 as int)) && t.1 <= b@.len(),
            None => dec_apple(b@, p as int) == None::<(Apple, int)>,
        },
{
    let (x, p1) = match read_u32(b, p) {
        Some(t) => t,
        None => {
            return None;
        },
    };
    let (y, p2) = match read_u32(b, p1) {
        Some(t) => t,
        None => {
            return None;
        },
    };
    if p2 < b.len() && (b[p2] == 0 || b[p2] == 1) {
        Some((Apple { x, y, eaten: b[p2] == 1 }, p2 + 1))
    } else {
        None
    }
}

/// Read one snake record.
#[verifier::loop_isolation(false)]
fn read_snek_rec(b: &Vec<u8>, p: usize) -> (r: Option<(SnekData, usize)>)
    ensures
        match r {
            Some(t) => dec_snek_rec(b@, p as int) == Some((t.0@, t.1 as int)) && t.1 <= b@.len(),
            None => dec_snek_rec(b@, p as int) == None::<(SnekDataView, int)>,
        },
{
    let (direction, p1) = match read_dir(b, p) {
        Some(t) => t,
        None => {
            return None;
        },
    };
    let (n, p2) = match read_u32(b, p1) {
        Some(t) => t,
        None => {
            return None;
        },
    };
    let mut positions: Vec<(u32, u32)> = Vec::new();
    let mut cur: usize = p2;
    let mut k: u32 = 0;
    while k < n
        invariant
            k <= n,
            cur <= b@.len(),
            positions@.len() == k,
            dec_coords(b@, p2 as int, n as nat) == (match dec_coords(
                b@,
                cur as int,
                (n - k) as nat,
            ) {
                None => None::<(Seq<(u32, u32)>, int)>,
                Some((s2, pe)) => Some((positions@ + s2, pe)),
            }),
        decreases n - k,
    {
        let ghost pos_pre = positions@;
        let ghost cur_pre = cur as int;
        let (c, cnext) = match read_coord(b, cur) {
            Some(t) => t,
            None => {
                proof {
                    assert(dec_coords(b@, cur_pre, (n - k) as nat) == None::<(
                        Seq<(u32, u32)>,
                        int,
                    )>);
                }
                return None;
            },
        };
        positions.push(c);
        cur = cnext;
        k = k + 1;
        proof {
            assert(dec_coords(b@, cur_pre, (n - k + 1) as nat) == (match dec_coords(
                b@,
                cur as int,
                (n - k) as nat,
            ) {
                None => None::<(Seq<(u32, u32)>, int)>,
                Some((s2, pe)) => Some((seq![c] + s2, pe)),
            }));
            assert forall|s2: Seq<(u32, u32)>| true implies pos_pre + (seq![c] + s2) =~= positions@
                + s2 by {}
            match dec_coords(b@, cur as int, (n - k) as nat) {
                None => {},
                Some((s2, pe)) => {
                    assert(pos_pre + (seq![c] + s2) =~= positions@ + s2);
                },
            }
        }
    }
    proof {
        assert(dec_coords(b@, cur as int, 0) == Some((Seq::<(u32, u32)>::empty(), cur as int)));
        assert(positions@ + Seq::<(u32, u32)>::empty() =~= positions@);
    }
    let (len, p4) = match read_u32(b, cur) {
        Some(t) => t,
        None => {
            return None;
        },
    };
    let (tick_speed_ms, p5) = match read_u64(b, p4) {
        Some(t) => t,
        None => {
            return None;
        },
    };
    Some((SnekData { direction, positions, len, tick_speed_ms }, p5))
}

/// Read one cell.
fn read_coord(b: &Vec<u8>, p: usize) -> (r: Option<((u32, u32), usize)>)
    ensures
        match r {
            Some(t) => dec_coord(b@, p as int) == Some((t.0, t.1 as int)) && t.1 <= b@.len(),
            None => dec_coord(b@, p as int) == None::<((u32, u32), int)>,
        },
{
    let (x, p1) = match read_u32(b, p) {
        Some(t) => t,
        None => {
            return None;
        },
    };
    let (y, p2) = match read_u32(b, p1) {
        Some(t) => t,
        None => {
            return None;
        },
    };
    Some(((x, y), p2))
}

/// Decode a snapshot from bytes. Succeeds exactly on a complete, well-formed
/// encoding and reproduces the encoded snapshot; anything else is rejected.
#[verifier::loop_isolation(false)]
#[verifier::rlimit(100)]
pub fn decode_game_data(bytes: &Vec<u8>) -> (r: Option<GameData>)
    ensures
        match r {
            Some(d) => spec_decode_game(bytes@) == Some(d@),
            None => spec_decode_game(bytes@) == None::<GameDataView>,
        },
{
    let (snek_tick_speed_ms, p1) = match read_u64(bytes, 0) {
        Some(t) => t,
        None => {
            return None;
        },
    };
    let (ns, p2) = match read_u32(bytes, p1) {
        Some(t) => t,
        None => {
            return None;
        },
    };
    let mut sneks: Vec<SnekData> = Vec::new();
    let mut cur: usize = p2;
    let mut k: u32 = 0;
    while k < ns
        invariant
            k <= ns,
            cur <= bytes@.len(),
            sneks@.len() == k,
            dec_sneks(bytes@, p2 as int, ns as nat) == (match dec_sneks(
                bytes@,
                cur as int,
                (ns - k) as nat,
            ) {
                None => None::<(Seq<SnekDataView>, int)>,
                Some((s2, pe)) => Some(
                    (Seq::new(sneks@.len(), |i: int| sneks@[i]@) + s2, pe),
                ),
            }),
        decreases ns - k,
    {
        let ghost views_pre = Seq::new(sneks@.len(), |i: int| sneks@[i]@);
        let ghost cur_pre = cur as int;
        let (sd, cnext) = match read_snek_rec(bytes, cur) {
            Some(t) => t,
            None => {
                proof {
                    assert(dec_sneks(bytes@, cur_pre, (ns - k) as nat) == None::<(
                        Seq<SnekDataView>,
                        int,
                    )>);
                }
                return None;
            },
        };
        let ghost sdv = sd@;
        sneks.push(sd);
        cur = cnext;
        k = k + 1;
        proof {
            assert(dec_sneks(bytes@, cur_pre, (ns - k + 1) as nat) == (match dec_sneks(
                bytes@,
                cur as int,
                (ns - k) as nat,
            ) {
                None => None::<(Seq<SnekDataView>, int)>,
                Some((s2, pe)) => Some((seq![sdv] + s2, pe)),
            }));
            let views_now = Seq::new(sneks@.len(), |i: int| sneks@[i]@);
            assert(views_now =~= views_pre.push(sdv));
            match dec_sneks(bytes@, cur as int, (ns - k) as nat) {
                None => {},
                Some((s2, pe)) => {
                    assert(views_pre + (seq![sdv] + s2) =~= views_now + s2);
                },
            }
        }
    }
    proof {
        assert(dec_sneks(bytes@, cur as int, 0) == Some(
            (Seq::<SnekDataView>::empty(), cur as int),
        ));
        assert(Seq::new(sneks@.len(), |i: int| sneks@[i]@) + Seq::<SnekDataView>::empty()
            =~= Seq::new(sneks@.len(), |i: int| sneks@[i]@));
    }
    let (na, p4) = match read_u32(bytes, cur) {
        Some(t) => t,
        None => {
            return None;
        },
    };
    let mut apples: Vec<Apple> = Vec::new();
    let mut cur2: usize = p4;
    let mut k2: u32 = 0;
    while k2 < na
        invariant
            k2 <= na,
            cur2 <= bytes@.len(),
            apples@.len() == k2,
            dec_apples(bytes@, p4 as int, na as nat) == (match dec_apples(
                bytes@,
                cur2 as int,
                (na - k2) as nat,
            ) {
                None => None::<(Seq<Apple>, int)>,
                Some((s2, pe)) => Some((apples@ + s2, pe)),
            }),
        decreases na - k2,
    {
        let ghost apples_pre = apples@;
        let ghost cur2_pre = cur2 as int;
        let (a, cnext) = match read_apple(bytes, cur2) {
            Some(t) => t,
            None => {
                proof {
                    assert(dec_apples(bytes@, cur2_pre, (na - k2) as nat) == None::<(
                        Seq<Apple>,
                        int,
                    )>);
                }
                return None;
            },
        };
        apples.push(a);
        cur2 = cnext;
        k2 = k2 + 1;
        proof {
            assert(dec_apples(bytes@, cur2_pre, (na - k2 + 1) as nat) == (match dec_apples(
                bytes@,
                cur2 as int,
                (na - k2) as nat,
            ) {
                None => None::<(Seq<Apple>, int)>,
                Some((s2, pe)) => Some((seq![a] + s2, pe)),
            }));
            match dec_apples(bytes@, cur2 as int, (na - k2) as nat) {
                None => {},
                Some((s2, pe)) => {
                    assert(apples_pre + (seq![a] + s2) =~= apples@ + s2);
                },
            }
        }
    }
    proof {
        assert(dec_apples(bytes@, cur2 as int, 0) == Some((Seq::<Apple>::empty(), cur2 as int)));
        assert(apples@ + Seq::<Apple>::empty() =~= apples@);
    }
    if cur2 == bytes.len() {
        let r = GameData { snek_tick_speed_ms, sneks, apples };
        proof {
            assert(r@ =~= (GameDataView {
                snek_tick_speed_ms,
                sneks: Seq::new(r.sneks@.len(), |i: int| r.sneks@[i]@),
                apples: r.apples@,
            }));
        }
        Some(r)
    } else {
        None
    }
}

} // verus!
