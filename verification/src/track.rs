//! `Key` and `Track`: the per-track keyframe store with interpolated value
//! lookup.
use vstd::prelude::*;

use crate::codec::lemma_serialize_keys_snoc;
use crate::codec::push_u32_le;
use crate::codec::push_u64_le;
use crate::codec::spec_serialize_keys;
use crate::codec::spec_serialize_track;
use crate::fp::add_bits;
use crate::fp::bits_trunc_u32;
use crate::fp::div_bits;
use crate::fp::floor_bits;
use crate::fp::fp_add;
use crate::fp::fp_div;
use crate::fp::fp_floor;
use crate::fp::fp_from_u32;
use crate::fp::fp_mul;
use crate::fp::fp_sub;
use crate::fp::fp_trunc_u32;
use crate::fp::mul_bits;
use crate::fp::sub_bits;
use crate::fp::u32_to_bits;
use crate::interpolation::Interpolation;
use crate::interpolation::spec_interpolate;

verus! {

/// The read capability shared by the live client and the offline player:
/// find a track by name, fetch a track by index.
pub trait RocketEngine {
    /// The tracks the engine holds, in insertion order.
    spec fn spec_tracks(&self) -> Seq<Track>;

    /// The position of the first track carrying a name, if any does.
    fn get_track_index(&self, name: &str) -> (r: Option<usize>)
        ensures
            match r {
                Some(i) => i < self.spec_tracks().len() && self.spec_tracks()[i as int].spec_name()
                    == name@ && forall|j: int|
                    0 <= j < i ==> self.spec_tracks()[j].spec_name() != name@,
                None => forall|j: int|
                    0 <= j < self.spec_tracks().len() ==> self.spec_tracks()[j].spec_name()
                        != name@,
            },
    ;

    /// The track at an index.
    fn get_track(&self, index: usize) -> (t: &Track)
        requires
            index < self.spec_tracks().len(),
        ensures
            *t == self.spec_tracks()[index as int],
    ;
}

/// One control point of a track: an integer row, a value (carried as
/// single-precision bits), and the interpolation kind of the segment that
/// starts at this key and ends at the next higher one.
#[derive(Clone, Copy, PartialEq, Eq, Structural, Debug)]
pub struct Key {
    pub row: u32,
    pub value: u32,
    pub interpolation: Interpolation,
}

impl Key {
    /// Construct a new `Key`. The value is the bit pattern of the
    /// single-precision number the key holds.
    pub fn new(row: u32, value: u32, interp: Interpolation) -> (k: Key)
        ensures
            k == (Key { row, value, interpolation: interp }),
    {
        Key { row, value, interpolation: interp }
    }
}

/// The keys are strictly sorted by ascending row: at most one key per row.
pub open spec fn sorted_keys(keys: Seq<Key>) -> bool {
    forall|i: int, j: int| 0 <= i < j < keys.len() ==> keys[i].row < keys[j].row
}

/// The first index whose key's row is at or above `row`; the length if
/// every key lies below.
pub open spec fn spec_first_ge(keys: Seq<Key>, row: u32) -> int
    decreases keys.len(),
{
    if keys.len() == 0 {
        0
    } else if keys[0].row >= row {
        0
    } else {
        1 + spec_first_ge(keys.drop_first(), row)
    }
}

/// What `set_key` does to a sorted key sequence: replace the key at the same
/// row in place if one exists, otherwise insert before the first key at a
/// higher row (at the end if there is none).
pub open spec fn spec_set_key(keys: Seq<Key>, k: Key) -> Seq<Key> {
    let p = spec_first_ge(keys, k.row);
    if p < keys.len() && keys[p].row == k.row {
        keys.update(p, k)
    } else {
        keys.insert(p, k)
    }
}

/// What `delete_key` does: remove the key at `row` if one exists, and
/// nothing otherwise.
pub open spec fn spec_delete_key(keys: Seq<Key>, row: u32) -> Seq<Key> {
    let p = spec_first_ge(keys, row);
    if p < keys.len() && keys[p].row == row {
        keys.remove(p)
    } else {
        keys
    }
}

proof fn lemma_first_ge_is(keys: Seq<Key>, row: u32, i: int)
    requires
        0 <= i <= keys.len(),
        forall|j: int| 0 <= j < i ==> keys[j].row < row,
        i < keys.len() ==> keys[i].row >= row,
    ensures
        spec_first_ge(keys, row) == i,
    decreases keys.len(),
{
    if keys.len() == 0 {
    } else if keys[0].row >= row {
        assert(i == 0);
    } else {
        assert(forall|j: int| 0 <= j < i - 1 ==> keys.drop_first()[j] == keys[j + 1]);
        lemma_first_ge_is(keys.drop_first(), row, i - 1);
    }
}

proof fn lemma_first_ge_bounds(keys: Seq<Key>, row: u32)
    ensures
        0 <= spec_first_ge(keys, row) <= keys.len(),
        forall|j: int| 0 <= j < spec_first_ge(keys, row) ==> keys[j].row < row,
        spec_first_ge(keys, row) < keys.len() ==> keys[spec_first_ge(keys, row)].row >= row,
    decreases keys.len(),
{
    if keys.len() == 0 {
    } else if keys[0].row >= row {
    } else {
        lemma_first_ge_bounds(keys.drop_first(), row);
        let p = spec_first_ge(keys, row);
        assert forall|j: int| 0 <= j < p implies keys[j].row < row by {
            if j > 0 {
                assert(keys.drop_first()[j - 1] == keys[j]);
            }
        }
        if p < keys.len() {
            assert(keys.drop_first()[p - 1] == keys[p]);
        }
    }
}

/// Index `i` brackets the integer row `lr`: the key at `i` lies at or below
/// `lr` and the next key lies above it.
pub open spec fn bracket_at(keys: Seq<Key>, lr: u32, i: int) -> bool {
    0 <= i < keys.len() - 1 && keys[i].row <= lr && keys[i + 1].row > lr
}

/// The position of the greatest key whose row is at or below `lr` — the
/// lower end of the segment that `lr` falls into. For strictly sorted keys
/// with `keys[0].row < lr < keys[last].row` exactly one position brackets
/// `lr`.
pub open spec fn spec_bracket(keys: Seq<Key>, lr: u32) -> int {
    choose|i: int| bracket_at(keys, lr, i)
}

/// For sorted keys a bracketing position is unique, so any index that
/// brackets `lr` is `spec_bracket`.
pub proof fn lemma_bracket_unique(keys: Seq<Key>, lr: u32, i: int)
    requires
        sorted_keys(keys),
        bracket_at(keys, lr, i),
    ensures
        spec_bracket(keys, lr) == i,
{
    let c = spec_bracket(keys, lr);
    assert(bracket_at(keys, lr, c));
    if c < i {
        assert(keys[c + 1].row <= keys[i].row);
    }
    if i < c {
        assert(keys[i + 1].row <= keys[c].row);
    }
}

/// The value of a key sequence at a row (row and result as single-precision
/// bit patterns): zero on an empty sequence; the first or last key's value,
/// held flat, outside the keyed range; otherwise the lower bracketing key's
/// value blended toward the higher one's by the lower key's interpolation
/// kind, applied to the normalized phase of the row inside the segment.
pub open spec fn spec_get_value(keys: Seq<Key>, row: u32) -> u32 {
    if keys.len() == 0 {
        0u32
    } else {
        let lr = bits_trunc_u32(floor_bits(row));
        if lr <= keys[0].row {
            keys[0].value
        } else if lr >= keys[keys.len() - 1].row {
            keys[keys.len() - 1].value
        } else {
            let pos = spec_bracket(keys, lr);
            let lower = keys[pos];
            let higher = keys[pos + 1];
            let t = div_bits(
                sub_bits(row, u32_to_bits(lower.row)),
                sub_bits(u32_to_bits(higher.row), u32_to_bits(lower.row)),
            );
            add_bits(
                lower.value,
                mul_bits(sub_bits(higher.value, lower.value), spec_interpolate(lower.interpolation, t)),
            )
        }
    }
}

/// Flat extrapolation: at every row whose floored integer row lies at or
/// before the first key's row, the value is exactly the first key's, and at
/// or past the last key's row, exactly the last key's.
pub proof fn lemma_flat_extrapolation(keys: Seq<Key>, row: u32)
    requires
        sorted_keys(keys),
        keys.len() > 0,
    ensures
        bits_trunc_u32(floor_bits(row)) <= keys[0].row ==> spec_get_value(keys, row) == keys[0].value,
        bits_trunc_u32(floor_bits(row)) >= keys[keys.len() - 1].row ==> spec_get_value(keys, row)
            == keys[keys.len() - 1].value,
{
}

/// The mathematical content of a track: its name and its keys.
pub struct TrackData {
    pub name: Seq<char>,
    pub keys: Seq<Key>,
}

/// The `Track` type: a named, strictly row-sorted sequence of keys.
#[derive(Clone)]
pub struct Track {
    name: String,
    keys: Vec<Key>,
}

impl Track {
    /// The track's name, as a mathematical value.
    pub closed spec fn spec_name(&self) -> Seq<char> {
        self.name@
    }

    /// The track's keys, as a mathematical value.
    pub closed spec fn spec_keys(&self) -> Seq<Key> {
        self.keys@
    }

    /// Well-formedness: the keys are strictly sorted by ascending row.
    pub open spec fn wf(&self) -> bool {
        sorted_keys(self.spec_keys())
    }

    /// The track's content as one mathematical value.
    pub open spec fn data(&self) -> TrackData {
        TrackData { name: self.spec_name(), keys: self.spec_keys() }
    }

    /// Construct a new `Track` with a name and no keys.
    pub fn new(name: &str) -> (t: Track)
        ensures
            t.spec_name() == name@,
            t.spec_keys() == Seq::<Key>::empty(),
            t.wf(),
    {
        Track { name: name.to_owned(), keys: Vec::new() }
    }

    /// Construct a new `Track` with a name, no keys, and room for `keys`
    /// keys.
    pub fn with_capacity(name: &str, keys: usize) -> (t: Track)
        ensures
            t.spec_name() == name@,
            t.spec_keys() == Seq::<Key>::empty(),
            t.wf(),
    {
        Track { name: name.to_owned(), keys: Vec::with_capacity(keys) }
    }

    /// Get the name of the track.
    pub fn get_name(&self) -> (r: &str)
        ensures
            r@ == self.spec_name(),
    {
        self.name.as_str()
    }

    /// Whether the track carries the given name.
    pub fn name_is(&self, name: &str) -> (r: bool)
        ensures
            r == (self.spec_name() == name@),
    {
        let q: String = name.to_owned();
        self.name == q
    }

    /// The number of keys on the track.
    pub fn key_count(&self) -> (r: usize)
        ensures
            r == self.spec_keys().len(),
    {
        self.keys.len()
    }

    /// The key at a position, counting from the lowest row.
    pub fn key_at(&self, index: usize) -> (k: Key)
        requires
            index < self.spec_keys().len(),
        ensures
            k == self.spec_keys()[index as int],
    {
        self.keys[index]
    }

    fn get_exact_position(&self, row: u32) -> (r: Option<usize>)
        ensures
            match r {
                Some(i) => i < self.spec_keys().len() && self.spec_keys()[i as int].row == row
                    && forall|j: int| 0 <= j < i ==> self.spec_keys()[j].row != row,
                None => forall|j: int|
                    0 <= j < self.spec_keys().len() ==> self.spec_keys()[j].row != row,
            },
    {
        let mut i: usize = 0;
        while i < self.keys.len()
            invariant
                i <= self.keys.len(),
                forall|j: int| 0 <= j < i ==> self.spec_keys()[j].row != row,
            decreases self.keys.len() - i,
        {
            if self.keys[i].row == row {
                return Some(i);
            }
            i = i + 1;
        }
        None
    }

    fn get_insert_position(&self, row: u32) -> (r: Option<usize>)
        ensures
            match r {
                Some(i) => i < self.spec_keys().len() && self.spec_keys()[i as int].row >= row
                    && forall|j: int| 0 <= j < i ==> self.spec_keys()[j].row < row,
                None => forall|j: int|
                    0 <= j < self.spec_keys().len() ==> self.spec_keys()[j].row < row,
            },
    {
        let mut i: usize = 0;
        while i < self.keys.len()
            invariant
                i <= self.keys.len(),
                forall|j: int| 0 <= j < i ==> self.spec_keys()[j].row < row,
            decreases self.keys.len() - i,
        {
            if self.keys[i].row >= row {
                return Some(i);
            }
            i = i + 1;
        }
        None
    }

    /// Insert or update a key on the track: a key at the same row is
    /// replaced in place, any other key is inserted so that the keys stay
    /// strictly sorted by row.
    pub fn set_key(&mut self, key: Key)
        requires
            old(self).wf(),
        ensures
            final(self).wf(),
            final(self).spec_name() == old(self).spec_name(),
            final(self).spec_keys() == spec_set_key(old(self).spec_keys(), key),
    {
        proof {
            lemma_first_ge_bounds(self.spec_keys(), key.row);
        }
        match self.get_exact_position(key.row) {
            Some(pos) => {
                proof {
                    assert(forall|j: int|
                        0 <= j < pos ==> self.spec_keys()[j].row < key.row) by {
                        assert(forall|j: int| 0 <= j < pos ==> self.spec_keys()[j].row
                            < self.spec_keys()[pos as int].row);
                    }
                    lemma_first_ge_is(self.spec_keys(), key.row, pos as int);
                }
                self.keys[pos] = key;
                proof {
                    lemma_sorted_update(old(self).spec_keys(), pos as int, key);
                }
            },
            None => {
                match self.get_insert_position(key.row) {
                    Some(pos) => {
                        proof {
                            lemma_first_ge_is(self.spec_keys(), key.row, pos as int);
                        }
                        self.keys.insert(pos, key);
                        proof {
                            lemma_sorted_insert(old(self).spec_keys(), pos as int, key);
                        }
                    },
                    None => {
                        proof {
                            lemma_first_ge_is(self.spec_keys(), key.row, self.spec_keys().len() as int);
                        }
                        let ghost n = self.spec_keys().len() as int;
                        self.keys.push(key);
                        proof {
                            assert(self.spec_keys() =~= old(self).spec_keys().insert(n, key));
                            lemma_sorted_insert(old(self).spec_keys(), n, key);
                        }
                    },
                }
            },
        }
    }

    fn get_lower_bound_position(&self, row: u32) -> (r: usize)
        requires
            self.wf(),
            self.spec_keys().len() >= 2,
            self.spec_keys()[0].row < row,
            self.spec_keys()[self.spec_keys().len() - 1].row > row,
        ensures
            bracket_at(self.spec_keys(), row, r as int),
    {
        let n = self.keys.len();
        let mut i: usize = 0;
        while self.keys[i].row <= row
            invariant
                self.wf(),
                n == self.spec_keys().len(),
                n >= 2,
                self.spec_keys()[n - 1].row > row,
                i < n,
                forall|j: int| 0 <= j < i ==> self.spec_keys()[j].row <= row,
            decreases self.spec_keys().len() - i,
        {
            i = i + 1;
            proof {
                if i == n {
                    assert(self.spec_keys()[n - 1].row <= row);
                }
            }
        }
        i - 1
    }

    /// The value of the track at a row. Both the row and the result are
    /// single-precision bit patterns; the row may lie between two integer
    /// key rows, and the interpolation kind stored on the lower key of the
    /// bracketing pair shapes the transition to the higher one.
    pub fn get_value(&self, row: u32) -> (r: u32)
        requires
            self.wf(),
        ensures
            r == spec_get_value(self.spec_keys(), row),
    {
        if self.keys.len() == 0 {
            return 0;
        }
        let lower_row = fp_trunc_u32(fp_floor(row));

        if lower_row <= self.keys[0].row {
            return self.keys[0].value;
        }
        if lower_row >= self.keys[self.keys.len() - 1].row {
            return self.keys[self.keys.len() - 1].value;
        }
        let pos = self.get_lower_bound_position(lower_row);
        proof {
            lemma_bracket_unique(self.spec_keys(), lower_row, pos as int);
        }
        let lower = self.keys[pos];
        let higher = self.keys[pos + 1];

        let t = fp_div(
            fp_sub(row, fp_from_u32(lower.row)),
            fp_sub(fp_from_u32(higher.row), fp_from_u32(lower.row)),
        );
        let it = lower.interpolation.interpolate(t);

        fp_add(lower.value, fp_mul(fp_sub(higher.value, lower.value), it))
    }

    /// Append this track's persisted form to a byte buffer: the name's byte
    /// length, the name's UTF-8 bytes, the key count, then each key's row,
    /// value and interpolation code, all fields little-endian.
    pub fn serialize(&self, wtr: &mut Vec<u8>)
        ensures
            final(wtr)@ == old(wtr)@ + spec_serialize_track(self.data()),
    {
        let name_bytes = self.name.as_str().as_bytes();
        push_u64_le(wtr, name_bytes.len() as u64);
        wtr.extend_from_slice(name_bytes);
        push_u64_le(wtr, self.keys.len() as u64);
        let ghost mid = wtr@;
        let n = self.keys.len();
        let mut i: usize = 0;
        while i < n
            invariant
                n == self.spec_keys().len(),
                i <= n,
                wtr@ == mid + spec_serialize_keys(self.spec_keys().take(i as int)),
            decreases n - i,
        {
            let k = self.keys[i];
            push_u32_le(wtr, k.row);
            push_u32_le(wtr, k.value);
            push_u32_le(wtr, k.interpolation.code());
            proof {
                lemma_serialize_keys_snoc(self.spec_keys(), i as int);
            }
            i = i + 1;
        }
        proof {
            assert(self.spec_keys().take(n as int) =~= self.spec_keys());
            assert(wtr@ =~= old(wtr)@ + spec_serialize_track(self.data()));
        }
    }

    /// Delete the key at a row from the track. If no key sits at that row,
    /// this does nothing.
    pub fn delete_key(&mut self, row: u32)
        requires
            old(self).wf(),
        ensures
            final(self).wf(),
            final(self).spec_name() == old(self).spec_name(),
            final(self).spec_keys() == spec_delete_key(old(self).spec_keys(), row),
    {
        proof {
            lemma_first_ge_bounds(self.spec_keys(), row);
        }
        match self.get_exact_position(row) {
            Some(pos) => {
                proof {
                    assert(forall|j: int| 0 <= j < pos ==> self.spec_keys()[j].row < row) by {
                        assert(forall|j: int| 0 <= j < pos ==> self.spec_keys()[j].row
                            < self.spec_keys()[pos as int].row);
                    }
                    lemma_first_ge_is(self.spec_keys(), row, pos as int);
                }
                self.keys.remove(pos);
                proof {
                    lemma_sorted_remove(old(self).spec_keys(), pos as int);
                }
            },
            None => {
                proof {
                    let p = spec_first_ge(self.spec_keys(), row);
                    if p < self.spec_keys().len() {
                        assert(self.spec_keys()[p].row != row);
                    }
                }
            },
        }
    }
}

proof fn lemma_sorted_update(keys: Seq<Key>, i: int, k: Key)
    requires
        sorted_keys(keys),
        0 <= i < keys.len(),
        keys[i].row == k.row,
    ensures
        sorted_keys(keys.update(i, k)),
{
}

proof fn lemma_sorted_insert(keys: Seq<Key>, p: int, k: Key)
    requires
        sorted_keys(keys),
        0 <= p <= keys.len(),
        forall|j: int| 0 <= j < p ==> keys[j].row < k.row,
        p < keys.len() ==> keys[p].row > k.row,
    ensures
        sorted_keys(keys.insert(p, k)),
{
    let r = keys.insert(p, k);
    assert forall|i: int, j: int| 0 <= i < j < r.len() implies r[i].row < r[j].row by {
        if i < p {
            assert(r[i] == keys[i]);
        } else if i == p {
            assert(r[i] == k);
        } else {
            assert(r[i] == keys[i - 1]);
        }
        if j < p {
            assert(r[j] == keys[j]);
        } else if j == p {
            assert(r[j] == k);
        } else {
            assert(r[j] == keys[j - 1]);
        }
    }
}

proof fn lemma_sorted_remove(keys: Seq<Key>, p: int)
    requires
        sorted_keys(keys),
        0 <= p < keys.len(),
    ensures
        sorted_keys(keys.remove(p)),
{
    let r = keys.remove(p);
    assert forall|i: int, j: int| 0 <= i < j < r.len() implies r[i].row < r[j].row by {
        if i < p {
            assert(r[i] == keys[i]);
        } else {
            assert(r[i] == keys[i + 1]);
        }
        if j < p {
            assert(r[j] == keys[j]);
        } else {
            assert(r[j] == keys[j + 1]);
        }
    }
}

/// Replacing the key at an existing row neither duplicates it nor disturbs
/// the order: the key count is unchanged, the keys stay strictly sorted, and
/// every other key is untouched.
pub proof fn lemma_set_key_replaces(keys: Seq<Key>, k: Key, i: int)
    requires
        sorted_keys(keys),
        0 <= i < keys.len(),
        keys[i].row == k.row,
    ensures
        spec_set_key(keys, k) == keys.update(i, k),
        spec_set_key(keys, k).len() == keys.len(),
        sorted_keys(spec_set_key(keys, k)),
{
    assert(forall|j: int| 0 <= j < i ==> keys[j].row < k.row) by {
        assert(forall|j: int| 0 <= j < i ==> keys[j].row < keys[i].row);
    }
    lemma_first_ge_is(keys, k.row, i);
    lemma_sorted_update(keys, i, k);
}

/// Inserting a key at a fresh row keeps the keys strictly sorted by
/// ascending row, whatever order the keys were inserted in, and grows the
/// count by exactly one.
pub proof fn lemma_set_key_new_sorted(keys: Seq<Key>, k: Key)
    requires
        sorted_keys(keys),
        forall|i: int| 0 <= i < keys.len() ==> keys[i].row != k.row,
    ensures
        spec_set_key(keys, k) == keys.insert(spec_first_ge(keys, k.row), k),
        spec_set_key(keys, k).len() == keys.len() + 1,
        sorted_keys(spec_set_key(keys, k)),
{
    lemma_first_ge_bounds(keys, k.row);
    let p = spec_first_ge(keys, k.row);
    lemma_sorted_insert(keys, p, k);
}

/// Re-inserting already strictly sorted keys in order with `set_key`
/// reproduces them exactly.
pub proof fn lemma_fold_sorted_keys(keys: Seq<Key>)
    requires
        sorted_keys(keys),
    ensures
        crate::codec::spec_fold_keys(keys) == keys,
    decreases keys.len(),
{
    if keys.len() > 0 {
        let front = keys.drop_last();
        let last = keys.last();
        assert(sorted_keys(front)) by {
            assert(forall|i: int, j: int|
                0 <= i < j < front.len() ==> front[i] == keys[i] && front[j] == keys[j]);
        }
        lemma_fold_sorted_keys(front);
        assert forall|j: int| 0 <= j < front.len() implies front[j].row < last.row by {
            assert(keys[j].row < keys[keys.len() - 1].row);
        }
        lemma_first_ge_is(front, last.row, front.len() as int);
        assert(front.insert(front.len() as int, last) =~= keys);
    }
}

/// Deleting at a row where no key sits is a no-op: the keys are returned
/// unchanged.
pub proof fn lemma_delete_key_absent(keys: Seq<Key>, row: u32)
    requires
        forall|i: int| 0 <= i < keys.len() ==> keys[i].row != row,
    ensures
        spec_delete_key(keys, row) == keys,
{
    lemma_first_ge_bounds(keys, row);
}

} // verus!
