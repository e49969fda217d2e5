//! The tombstone bitmap: which rows of a segment are live.
use vstd::prelude::*;

use crate::format::block;
use crate::format::cursor;
use crate::format::cursor::{Cursor, Reader, Writer};
use crate::format::error::{FormatError, MalformedKind};
use crate::format::header::{FileKind, HEADER_LEN};
use crate::format::le;
use crate::format::segment::vectors;

verus! {

/// Bit `k` of a word.
pub open spec fn bit(w: u64, k: u64) -> bool {
    (w >> k) & 1 == 1
}

/// How many words hold a bit for each of `rows` rows.
pub open spec fn word_count(rows: u32) -> int {
    (rows + 63) / 64
}

/// A segment's live-row bitmap, independent of how it is held in memory.
pub struct BitmapModel {
    pub rows: u32,
    pub generation: u32,
    pub words: Seq<u64>,
}

/// A segment's live-row bitmap: bit `r` set means row `r` is live.
#[derive(Debug, PartialEq, Eq)]
pub struct Tombstones {
    /// Rows the bitmap covers.
    pub rows: u32,
    /// Bumped on every rewrite, so a stale `.del` left by an interrupted write is detectable
    /// against the generation the manifest recorded.
    pub generation: u32,
    /// Packed bits, 64 rows per word, little-endian on disk.
    pub words: Vec<u64>,
}

impl View for Tombstones {
    type V = BitmapModel;

    open spec fn view(&self) -> BitmapModel {
        BitmapModel { rows: self.rows, generation: self.generation, words: self.words@ }
    }
}

impl BitmapModel {
    /// Whether row `i` is live.
    pub open spec fn live(self, i: int) -> bool {
        &&& 0 <= i < self.rows
        &&& i / 64 < self.words.len()
        &&& bit(self.words[i / 64], (i % 64) as u64)
    }

    /// As many words as the rows need, and no bit set beyond the last row.
    pub open spec fn wf(self) -> bool {
        &&& self.words.len() == word_count(self.rows)
        &&& self.rows % 64 != 0 ==> self.words.last() >> ((self.rows % 64) as u64) == 0
    }

    /// The bitmap with row `i` dead: its bit cleared, or nothing changed where it was not live.
    pub open spec fn without(self, i: int) -> BitmapModel {
        if self.live(i) {
            let w = self.words[i / 64];
            BitmapModel {
                words: self.words.update(i / 64, w & !(1u64 << ((i % 64) as u64))),
                ..self
            }
        } else {
            self
        }
    }

    /// Whether the last word has a bit set at or beyond the number of rows.
    pub open spec fn has_stray_bit(self) -> bool {
        exists|k: int| 0 <= k < 64 && #[trigger] self.is_stray(k)
    }

    /// Whether bit `k` of the last word is set and belongs to no row.
    pub open spec fn is_stray(self, k: int) -> bool {
        64 * (self.words.len() - 1) + k >= self.rows && bit(self.words.last(), k as u64)
    }

    /// How many of the first `n` rows are live.
    pub open spec fn live_below(self, n: nat) -> nat
        decreases n,
    {
        if n == 0 {
            0
        } else {
            self.live_below((n - 1) as nat) + if self.live(n - 1) {
                1nat
            } else {
                0nat
            }
        }
    }

    /// How many rows are live.
    pub open spec fn live_rows(self) -> nat {
        self.live_below(self.rows as nat)
    }
}

/// The bytes of a list of words.
pub open spec fn words_bytes(ws: Seq<u64>) -> Seq<u8>
    decreases ws.len(),
{
    if ws.len() == 0 {
        Seq::empty()
    } else {
        words_bytes(ws.drop_last()) + le::le(ws.last() as nat, 8)
    }
}

/// The payload of a `.del` file.
pub open spec fn bitmap_bytes(t: BitmapModel) -> Seq<u8> {
    le::le(t.rows as nat, 4) + le::le(t.generation as nat, 4) + cursor::zeros(8) + words_bytes(
        t.words,
    )
}

/// The `n` words at a cursor.
pub open spec fn parsed_words(c: Cursor, n: nat) -> Result<(Seq<u64>, Cursor), FormatError>
    decreases n,
{
    if n == 0 {
        Ok((Seq::empty(), c))
    } else {
        match parsed_words(c, (n - 1) as nat) {
            Ok((ws, c1)) => match c1.uint(8) {
                Ok((w, c2)) => Ok((ws.push(w as u64), c2)),
                Err(e) => Err(e),
            },
            Err(e) => Err(e),
        }
    }
}

/// The bitmap that a payload holds, or why it is refused.
pub open spec fn parsed_bitmap(p: Seq<u8>) -> Result<BitmapModel, FormatError> {
    let c = Cursor { data: p, pos: 0, base: 0 };
    match c.uint(4) {
        Ok((rows, c1)) => match c1.uint(4) {
            Ok((generation, c2)) => match c2.reserved(8) {
                Ok((_, c3)) => if c3.left() != 8 * word_count(rows as u32) {
                    Err(vectors::inconsistent(16, "bitmap length"))
                } else {
                    match parsed_words(c3, word_count(rows as u32) as nat) {
                        Ok((words, _)) => {
                            let t = BitmapModel {
                                rows: rows as u32,
                                generation: generation as u32,
                                words,
                            };
                            if t.wf() {
                                Ok(t)
                            } else {
                                Err(vectors::inconsistent(16, "bitmap tail"))
                            }
                        },
                        Err(e) => Err(e),
                    }
                },
                Err(e) => Err(e),
            },
            Err(e) => Err(e),
        },
        Err(e) => Err(e),
    }
}

/// The bitmap that a `.del` file holds, or why it is refused.
pub open spec fn decoded(b: Seq<u8>) -> Result<BitmapModel, FormatError> {
    match block::decoded(b, FileKind::Deleted) {
        Ok(p) => parsed_bitmap(p),
        Err(e) => Err(e),
    }
}

proof fn lemma_all_ones(k: u64, used: u64)
    requires
        k < 64,
        0 < used < 64,
    ensures
        bit(u64::MAX, k),
        bit(((1u64 << used) - 1) as u64, k) == (k < used),
        ((1u64 << used) - 1) as u64 >> used == 0,
        (1u64 << used) >= 1,
{
    assert((0xffff_ffff_ffff_ffffu64 >> k) & 1 == 1) by (bit_vector)
        requires
            k < 64,
    ;
    assert((1u64 << used) >= 1) by (bit_vector)
        requires
            used < 64,
    ;
    assert(((((1u64 << used) - 1) as u64 >> k) & 1 == 1) == (k < used)) by (bit_vector)
        requires
            k < 64,
            used < 64,
    ;
    assert(((1u64 << used) - 1) as u64 >> used == 0) by (bit_vector)
        requires
            used < 64,
    ;
}

proof fn lemma_clear_bit(w: u64, k: u64, j: u64, used: u64)
    requires
        k < 64,
        j < 64,
        used < 64,
    ensures
        bit(w & !(1u64 << k), j) == (bit(w, j) && j != k),
        w >> used == 0 ==> (w & !(1u64 << k)) >> used == 0,
        (w & (1u64 << k) == 0) == !bit(w, k),
{
    assert((((w & !(1u64 << k)) >> j) & 1 == 1) == ((w >> j) & 1 == 1 && j != k)) by (bit_vector)
        requires
            k < 64,
            j < 64,
    ;
    assert(w >> used == 0 ==> (w & !(1u64 << k)) >> used == 0) by (bit_vector)
        requires
            used < 64,
            k < 64,
    ;
    assert((w & (1u64 << k) == 0) == !((w >> k) & 1 == 1)) by (bit_vector)
        requires
            k < 64,
    ;
}

proof fn lemma_words_err(c: Cursor, k: nat, n: nat)
    requires
        k <= n,
        parsed_words(c, k) is Err,
    ensures
        parsed_words(c, n) == parsed_words(c, k),
    decreases n,
{
    if k < n {
        lemma_words_err(c, k, (n - 1) as nat);
    }
}

proof fn lemma_words_len(c: Cursor, n: nat)
    ensures
        parsed_words(c, n) is Ok ==> parsed_words(c, n)->Ok_0.0.len() == n,
    decreases n,
{
    if n > 0 {
        lemma_words_len(c, (n - 1) as nat);
    }
}

/// A bitmap in which every row is live.
pub open spec fn fresh(rows: u32, generation: u32) -> BitmapModel {
    BitmapModel {
        rows,
        generation,
        words: Seq::new(
            word_count(rows) as nat,
            |i: int|
                if rows % 64 != 0 && i == word_count(rows) - 1 {
                    sub_one(1u64 << ((rows % 64) as u64))
                } else {
                    u64::MAX
                },
        ),
    }
}

/// The number before one above 0.
pub open spec fn sub_one(w: u64) -> u64 {
    (w - 1) as u64
}

impl Tombstones {
    /// All rows live.
    pub fn all_live(rows: u32, generation: u32) -> (r: Self)
        ensures
            r@ == fresh(rows, generation),
            r@.wf(),
            forall|i: int| 0 <= i < rows ==> r@.live(i),
    {
        let n: u64 = (rows as u64 + 63) / 64;
        let mut words: Vec<u64> = Vec::new();
        while (words.len() as u64) < n
            invariant
                words@.len() <= n,
                forall|j: int| 0 <= j < words@.len() ==> words@[j] == u64::MAX,
            decreases n - words@.len(),
        {
            words.push(u64::MAX);
        }
        let used: u64 = (rows % 64) as u64;
        if used != 0 {
            let last: usize = words.len() - 1;
            proof {
                lemma_all_ones(0, used);
            }
            words[last] = (1u64 << used) - 1;
        }
        let t = Tombstones { rows, generation, words };
        proof {
            assert(t@.words =~= fresh(rows, generation).words);
            assert forall|i: int| 0 <= i < rows implies t@.live(i) by {
                let k = (i % 64) as u64;
                lemma_all_ones(
                    k,
                    if used == 0 {
                        1
                    } else {
                        used
                    },
                );
            }
        }
        t
    }

    /// Encode a `.del` file.
    pub fn encode(&self) -> (r: Vec<u8>)
        ensures
            r@ == block::block_bytes(FileKind::Deleted, bitmap_bytes(self@)),
    {
        let mut w = Writer::new();
        w.u32(self.rows);
        w.u32(self.generation);
        w.reserved(8);
        let ghost head = w@;
        let mut i: usize = 0;
        assert(head + words_bytes(self.words@.take(0)) =~= head);
        while i < self.words.len()
            invariant
                i <= self.words@.len(),
                w@ == head + words_bytes(self.words@.take(i as int)),
            decreases self.words.len() - i,
        {
            w.u64(self.words[i]);
            proof {
                let next = self.words@.take(i + 1);
                assert(next.drop_last() =~= self.words@.take(i as int));
                assert(w@ =~= head + words_bytes(next));
            }
            i += 1;
        }
        assert(self.words@.take(i as int) =~= self.words@);
        assert(w@ =~= bitmap_bytes(self@));
        block::encode_block(FileKind::Deleted, w.as_slice())
    }

    /// Decode a `.del` file.
    ///
    /// # Errors
    /// Any [`FormatError`]; in particular [`MalformedKind::Inconsistent`] if the word count does
    /// not match the row count, or if bits are set beyond the last row.
    pub fn decode(bytes: &[u8]) -> (res: Result<Self, FormatError>)
        ensures
            match decoded(bytes@) {
                Ok(m) => res matches Ok(t) && t@ == m && m.wf(),
                Err(e) => res == Err::<Self, FormatError>(e),
            },
    {
        let payload = match block::decode_block(bytes, FileKind::Deleted) {
            Ok(p) => p,
            Err(e) => {
                return Err(e);
            },
        };
        let mut r = Reader::new(payload);
        let rows: u32 = match r.u32() {
            Ok(v) => v,
            Err(e) => {
                return Err(e);
            },
        };
        let generation: u32 = match r.u32() {
            Ok(v) => v,
            Err(e) => {
                return Err(e);
            },
        };
        match r.reserved(8) {
            Ok(()) => {},
            Err(e) => {
                return Err(e);
            },
        }
        let expected_words: u64 = (rows as u64 + 63) / 64;
        if r.remaining() as u64 != expected_words * 8 {
            return Err(
                FormatError::Malformed {
                    offset: 16,
                    kind: MalformedKind::Inconsistent { field: "bitmap length" },
                },
            );
        }
        let words = match read_words(&mut r, expected_words) {
            Ok(v) => v,
            Err(e) => {
                return Err(e);
            },
        };
        proof {
            lemma_words_len(
                Cursor { data: payload@, pos: 16, base: 0 },
                expected_words as nat,
            );
        }
        // Bits past the final row must be clear, or the live count would over-report and the
        // collection would claim documents it does not have.
        let used: u64 = (rows % 64) as u64;
        if used != 0 {
            let last: u64 = words[words.len() - 1];
            if last >> used != 0 {
                return Err(
                    FormatError::Malformed {
                        offset: 16,
                        kind: MalformedKind::Inconsistent { field: "bitmap tail" },
                    },
                );
            }
        }
        Ok(Tombstones { rows, generation, words })
    }

    /// Whether row `index` is live.
    pub fn is_live(&self, index: u32) -> (r: bool)
        ensures
            r == self@.live(index as int),
    {
        if index >= self.rows {
            return false;
        }
        let word: usize = (index / 64) as usize;
        if word >= self.words.len() {
            return false;
        }
        let k: u64 = (index % 64) as u64;
        let w: u64 = self.words[word];
        (w >> k) & 1 == 1
    }

    /// Mark a row dead, returning whether it changed.
    pub fn kill(&mut self, index: u32) -> (r: bool)
        ensures
            r == old(self)@.live(index as int),
            final(self)@ == old(self)@.without(index as int),
            final(self)@.rows == old(self)@.rows,
            final(self)@.generation == old(self)@.generation,
            final(self)@.words.len() == old(self)@.words.len(),
            forall|i: int| #[trigger]
                final(self)@.live(i) == (old(self)@.live(i) && i != index),
            old(self)@.wf() ==> final(self)@.wf(),
    {
        if index >= self.rows {
            return false;
        }
        let word: usize = (index / 64) as usize;
        if word >= self.words.len() {
            return false;
        }
        let k: u64 = (index % 64) as u64;
        let w: u64 = self.words[word];
        let mask: u64 = 1u64 << k;
        proof {
            lemma_clear_bit(w, k, 0, 0);
        }
        if w & mask == 0 {
            return false;
        }
        self.words[word] = w & !mask;
        proof {
            let used = (self.rows % 64) as u64;
            lemma_clear_bit(w, k, 0, used);
            assert forall|i: int| #[trigger]
                self@.live(i) == (old(self)@.live(i) && i != index) by {
                if 0 <= i < self.rows && i / 64 == word {
                    lemma_clear_bit(w, k, (i % 64) as u64, used);
                }
            }
        }
        true
    }

    /// Live rows.
    pub fn live_count(&self) -> (r: u32)
        ensures
            r == self@.live_rows(),
    {
        let mut n: u32 = 0;
        let mut i: u32 = 0;
        while i < self.rows
            invariant
                n <= i <= self.rows,
                n == self@.live_below(i as nat),
            decreases self.rows - i,
        {
            if self.is_live(i) {
                n += 1;
            }
            i += 1;
        }
        n
    }

    /// A copy of the bitmap.
    pub fn copy(&self) -> (r: Self)
        ensures
            r@ == self@,
    {
        let mut words: Vec<u64> = Vec::new();
        let mut i: usize = 0;
        while i < self.words.len()
            invariant
                i <= self.words@.len(),
                words@ == self.words@.take(i as int),
            decreases self.words.len() - i,
        {
            words.push(self.words[i]);
            assert(self.words@.take(i + 1) =~= self.words@.take(i as int).push(
                self.words@[i as int],
            ));
            i += 1;
        }
        assert(self.words@.take(i as int) =~= self.words@);
        Tombstones { rows: self.rows, generation: self.generation, words }
    }
}

fn read_words(r: &mut Reader<'_>, n: u64) -> (res: Result<Vec<u64>, FormatError>)
    requires
        old(r)@.valid(),
    ensures
        match parsed_words(old(r)@, n as nat) {
            Ok((ws, c)) => res matches Ok(v) && v@ == ws,
            Err(e) => res == Err::<Vec<u64>, FormatError>(e),
        },
{
    let ghost start = r@;
    let mut out: Vec<u64> = Vec::new();
    let mut i: u64 = 0;
    while i < n
        invariant
            i <= n,
            start == old(r)@,
            r@.valid(),
            parsed_words(start, i as nat) == Ok::<(Seq<u64>, Cursor), FormatError>((out@, r@)),
        decreases n - i,
    {
        match r.u64() {
            Ok(w) => {
                out.push(w);
            },
            Err(e) => {
                proof {
                    lemma_words_err(start, (i + 1) as nat, n as nat);
                }
                return Err(e);
            },
        }
        i += 1;
    }
    Ok(out)
}

proof fn lemma_words(c: Cursor, ws: Seq<u64>)
    requires
        c.valid(),
        c.at(words_bytes(ws)),
    ensures
        words_bytes(ws).len() == 8 * ws.len(),
        parsed_words(c, ws.len()) == Ok::<(Seq<u64>, Cursor), FormatError>(
            (ws, c.advance(8 * ws.len() as int)),
        ),
    decreases ws.len(),
{
    if ws.len() > 0 {
        let front = words_bytes(ws.drop_last());
        cursor::lemma_at_split(c, front, le::le(ws.last() as nat, 8));
        lemma_words(c, ws.drop_last());
        le::lemma_pow256_values();
        cursor::lemma_uint(c.advance(front.len() as int), ws.last() as nat, 8);
        assert(ws.drop_last().push(ws.last()) =~= ws);
    } else {
        assert(ws =~= Seq::<u64>::empty());
    }
}

/// Bits at and beyond position `k` are all clear just where shifting them down leaves nothing.
proof fn lemma_no_high_bits(w: u64, k: u64)
    requires
        k < 64,
    ensures
        (w >> k == 0) <==> (forall|j: int| k <= j < 64 ==> !#[trigger] bit(w, j as u64)),
    decreases 64 - k,
{
    if w >> k == 0 {
        assert forall|j: int| k <= j < 64 implies !#[trigger] bit(w, j as u64) by {
            let n = j as u64;
            assert((w >> n) & 1 != 1) by (bit_vector)
                requires
                    w >> k == 0,
                    k <= n,
                    n < 64,
            ;
        }
    } else if k == 63 {
        assert((w >> 63) & 1 == 1) by (bit_vector)
            requires
                w >> 63 != 0,
        ;
        assert(bit(w, 63int as u64));
    } else {
        let up = (k + 1) as u64;
        lemma_no_high_bits(w, up);
        if w >> up == 0 {
            assert((w >> k) & 1 == 1) by (bit_vector)
                requires
                    w >> k != 0,
                    w >> up == 0,
                    up == k + 1,
                    k < 63,
            ;
            assert(bit(w, (k as int) as u64));
        }
    }
}

/// A bitmap is well formed just where it has a word for every 64 rows or part of them, and no bit
/// set beyond the last row.
pub proof fn lemma_wf_is_canonical(t: BitmapModel)
    ensures
        t.wf() <==> t.words.len() == word_count(t.rows) && (t.rows > 0 ==> !t.has_stray_bit()),
{
    let used = t.rows % 64;
    if t.words.len() == word_count(t.rows) && t.rows > 0 {
        let last = t.words.last();
        if used != 0 {
            lemma_no_high_bits(last, used as u64);
            assert(64 * (t.words.len() - 1) + used == t.rows);
            if !t.wf() {
                let j = choose|j: int| used <= j < 64 && #[trigger] bit(last, j as u64);
                assert(t.is_stray(j));
            } else if t.has_stray_bit() {
                let k = choose|k: int| 0 <= k < 64 && #[trigger] t.is_stray(k);
                assert(bit(last, k as u64));
            }
        } else {
            assert(64 * t.words.len() == t.rows);
        }
    }
}

/// A bitmap survives being written and read back.
pub proof fn lemma_bitmap_round_trip(t: BitmapModel)
    requires
        t.wf(),
        bitmap_bytes(t).len() + HEADER_LEN + block::TRAILER_LEN <= usize::MAX,
    ensures
        decoded(block::block_bytes(FileKind::Deleted, bitmap_bytes(t))) == Ok::<
            BitmapModel,
            FormatError,
        >(t),
{
    lemma_bitmap_is_read_or_refused(t);
    lemma_wf_is_canonical(t);
}

/// A bitmap that was written is read back just where it has as many words as its rows need and no
/// bit beyond them; the two ways to fail are told apart.
pub proof fn lemma_bitmap_is_read_or_refused(t: BitmapModel)
    requires
        bitmap_bytes(t).len() + HEADER_LEN + block::TRAILER_LEN <= usize::MAX,
    ensures
        decoded(block::block_bytes(FileKind::Deleted, bitmap_bytes(t))) == if t.words.len()
            != word_count(t.rows) {
            Err::<BitmapModel, FormatError>(vectors::inconsistent(16, "bitmap length"))
        } else if t.rows > 0 && t.has_stray_bit() {
            Err::<BitmapModel, FormatError>(vectors::inconsistent(16, "bitmap tail"))
        } else {
            Ok::<BitmapModel, FormatError>(t)
        },
{
    lemma_wf_is_canonical(t);
    let p = bitmap_bytes(t);
    let b = block::block_bytes(FileKind::Deleted, p);
    block::lemma_block_round_trip(FileKind::Deleted, p, Seq::empty());
    assert(b + Seq::<u8>::empty() =~= b);
    let c = Cursor { data: p, pos: 0, base: 0 };
    le::lemma_pow256_values();
    le::lemma_le_fixed(t.rows as nat);
    le::lemma_le_fixed(t.generation as nat);
    assert(p.subrange(0, 4) =~= le::le(t.rows as nat, 4));
    cursor::lemma_uint(c, t.rows as nat, 4);
    assert(p.subrange(4, 8) =~= le::le(t.generation as nat, 4));
    cursor::lemma_uint(c.advance(4), t.generation as nat, 4);
    assert(p.subrange(8, 16) =~= cursor::zeros(8));
    let c3 = c.advance(16);
    assert(p.subrange(16, p.len() as int) =~= words_bytes(t.words));
    assert(c3.at(words_bytes(t.words)));
    lemma_words(c3, t.words);
}

/// Two bitmaps that agree on the first `n` rows but for row `k` differ there by that row.
proof fn lemma_live_below_without(a: BitmapModel, b: BitmapModel, k: int, n: nat)
    requires
        forall|i: int| #[trigger] b.live(i) == (a.live(i) && i != k),
    ensures
        b.live_below(n) == a.live_below(n) - (if a.live(k) && k < n {
            1int
        } else {
            0int
        }),
    decreases n,
{
    if n > 0 {
        lemma_live_below_without(a, b, k, (n - 1) as nat);
        assert(b.live(n - 1) == (a.live(n - 1) && n - 1 != k));
    }
}

/// Marking a live row dead takes exactly one from the live count; marking any other changes
/// nothing.
pub proof fn lemma_kill_counts_once(a: BitmapModel, b: BitmapModel, k: int)
    requires
        a.rows == b.rows,
        forall|i: int| #[trigger] b.live(i) == (a.live(i) && i != k),
    ensures
        b.live_rows() == a.live_rows() - (if a.live(k) {
            1int
        } else {
            0int
        }),
{
    lemma_live_below_without(a, b, k, a.rows as nat);
}

/// A fresh bitmap is well formed, and every row is live in it.
pub proof fn lemma_fresh_is_live(rows: u32, generation: u32)
    ensures
        fresh(rows, generation).wf(),
        forall|i: int| 0 <= i < rows ==> #[trigger] fresh(rows, generation).live(i),
{
    let t = fresh(rows, generation);
    let used = (rows % 64) as u64;
    if used != 0 {
        lemma_all_ones(0, used);
    }
    assert forall|i: int| 0 <= i < rows implies #[trigger] t.live(i) by {
        lemma_all_ones(
            (i % 64) as u64,
            if used == 0 {
                1
            } else {
                used
            },
        );
    }
}

/// A bitmap in which every row is live counts them all, and no bitmap counts more.
pub proof fn lemma_live_rows_bound(a: BitmapModel, n: nat)
    ensures
        a.live_below(n) <= n,
        (forall|i: int| 0 <= i < n ==> a.live(i)) ==> a.live_below(n) == n,
    decreases n,
{
    if n > 0 {
        lemma_live_rows_bound(a, (n - 1) as nat);
    }
}

} // verus!
