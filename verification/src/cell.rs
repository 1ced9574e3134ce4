//! A lattice point: an integer coordinate vector, an activity state and a
//! reusable neighbour-enumeration cursor.
//!
//! The cursor is scratch state for sweeping the `3^dim - 1` non-identity
//! neighbour offsets of the cell; it is never part of the cell's identity.

use vstd::prelude::*;
use vstd::pervasive::VecAdditionalExecFns;
use crate::delta::DeltaCoordinate;
use crate::delta::advance_delta;
use crate::delta::cursor_index;
use crate::delta::delta_offset;
use crate::delta::lemma_cursor_index_bounds;
use crate::delta::lemma_cursor_index_max;
use crate::delta::lemma_cursor_index_zero;
use crate::delta::pow3;

verus! {

#[derive(Clone, Copy, PartialEq, Eq, Structural, Debug)]
pub enum CellValue {
    Active,
    Inactive,
}

/// The mathematical content of a [`Cell`].
#[verifier::ext_equal]
pub struct CellModel {
    pub coords: Seq<int>,
    pub value: CellValue,
    pub delta: Seq<DeltaCoordinate>,
}

impl CellModel {
    /// The cursor always carries one delta per axis.
    pub open spec fn wf(self) -> bool {
        self.delta.len() == self.coords.len()
    }

    /// The coordinate the cursor currently points at.
    pub open spec fn nearby(self) -> Seq<int> {
        Seq::new(self.coords.len(), |j: int| self.coords[j] + delta_offset(self.delta[j]))
    }

    /// Every component leaves room for a +/-1 neighbour offset.
    pub open spec fn coords_in_range(self) -> bool {
        forall|j: int| 0 <= j < self.coords.len() ==> i32::MIN < #[trigger] self.coords[j]
            < i32::MAX
    }
}

pub open spec fn as_ints(s: Seq<i32>) -> Seq<int> {
    s.map_values(|x: i32| x as int)
}

/// Content hash of a coordinate vector: a fixed multiply-accumulate digest.
/// Equal coordinates always give equal hashes; the lattice never relies on
/// the converse.
pub closed spec fn coords_hash(s: Seq<int>) -> u64
    decreases s.len(),
{
    if s.len() == 0 {
        0xcbf29ce484222325u64
    } else {
        (((coords_hash(s.drop_last()) as int) * 0x100000001b3 + ((s.last() as u64) as int))
            % 0x10000000000000000) as u64
    }
}

#[derive(Clone, PartialEq, Debug)]
pub struct Cell {
    coordinates: Vec<i32>,
    value: CellValue,
    delta_coordinate: Vec<DeltaCoordinate>,
}

impl View for Cell {
    type V = CellModel;

    closed spec fn view(&self) -> CellModel {
        CellModel {
            coords: as_ints(self.coordinates@),
            value: self.value,
            delta: self.delta_coordinate@,
        }
    }
}

impl Cell {
    /// A fresh inactive cell at the origin of a `len`-dimensional space,
    /// with its neighbour cursor rewound.
    pub fn new(len: usize) -> (c: Cell)
        ensures
            c@.wf(),
            c@.coords.len() == len,
            forall|j: int| 0 <= j < len ==> c@.coords[j] == 0,
            c@.value is Inactive,
            forall|j: int| 0 <= j < len ==> c@.delta[j] is SameCoordinate,
            cursor_index(c@.delta) == 0,
    {
        let mut coordinates: Vec<i32> = Vec::new();
        let mut delta_coordinate: Vec<DeltaCoordinate> = Vec::new();
        let mut i: usize = 0;
        while i < len
            invariant
                i <= len,
                coordinates@.len() == i,
                delta_coordinate@.len() == i,
                forall|j: int| 0 <= j < i ==> coordinates@[j] == 0i32,
                forall|j: int| 0 <= j < i ==> delta_coordinate@[j] is SameCoordinate,
            decreases len - i,
        {
            coordinates.push(0);
            delta_coordinate.push(DeltaCoordinate::SameCoordinate);
            i = i + 1;
        }
        let c = Cell { coordinates, value: CellValue::Inactive, delta_coordinate };
        proof {
            lemma_cursor_index_zero(c@.delta);
        }
        c
    }

    /// A copy of the cell (coordinates, state and cursor).
    pub fn duplicate(&self) -> (c: Cell)
        ensures
            c@ == self@,
    {
        let mut coordinates: Vec<i32> = Vec::new();
        let mut delta_coordinate: Vec<DeltaCoordinate> = Vec::new();
        let mut i: usize = 0;
        while i < self.coordinates.len()
            invariant
                i <= self.coordinates@.len(),
                coordinates@ == self.coordinates@.take(i as int),
            decreases self.coordinates@.len() - i,
        {
            proof {
                assert(self.coordinates@.take(i + 1) =~= self.coordinates@.take(i as int).push(
                    self.coordinates@[i as int],
                ));
            }
            coordinates.push(self.coordinates[i]);
            i = i + 1;
        }
        let mut j: usize = 0;
        while j < self.delta_coordinate.len()
            invariant
                j <= self.delta_coordinate@.len(),
                delta_coordinate@ == self.delta_coordinate@.take(j as int),
            decreases self.delta_coordinate@.len() - j,
        {
            proof {
                assert(self.delta_coordinate@.take(j + 1) =~= self.delta_coordinate@.take(
                    j as int,
                ).push(self.delta_coordinate@[j as int]));
            }
            delta_coordinate.push(self.delta_coordinate[j]);
            j = j + 1;
        }
        let c = Cell { coordinates, value: self.value, delta_coordinate };
        proof {
            assert(self.coordinates@.take(self.coordinates@.len() as int) =~= self.coordinates@);
            assert(self.delta_coordinate@.take(self.delta_coordinate@.len() as int)
                =~= self.delta_coordinate@);
            assert(c@.coords =~= self@.coords);
        }
        c
    }

    /// The dimension of the cell's coordinate.
    pub fn len(&self) -> (r: usize)
        ensures
            r == self@.coords.len(),
    {
        self.coordinates.len()
    }

    pub fn get_value(&self) -> (r: CellValue)
        ensures
            r == self@.value,
    {
        self.value
    }

    pub fn set_value(&mut self, v: CellValue)
        ensures
            final(self)@ == (CellModel { value: v, ..old(self)@ }),
    {
        self.value = v;
    }

    pub fn get_coordinates(&self) -> (r: &Vec<i32>)
        ensures
            as_ints(r@) == self@.coords,
    {
        &self.coordinates
    }

    pub fn set_coordinates(&mut self, coordinates: Vec<i32>)
        ensures
            final(self)@ == (CellModel { coords: as_ints(coordinates@), ..old(self)@ }),
    {
        self.coordinates = coordinates;
    }

    pub fn get_ith_coordinate(&self, i: usize) -> (r: i32)
        requires
            i < self@.coords.len(),
        ensures
            r as int == self@.coords[i as int],
    {
        self.coordinates[i]
    }

    pub fn set_ith_coordinate(&mut self, i: usize, val: i32)
        requires
            i < old(self)@.coords.len(),
        ensures
            final(self)@ == (CellModel {
                coords: old(self)@.coords.update(i as int, val as int),
                ..old(self)@
            }),
    {
        self.coordinates.set(i, val);
        proof {
            assert(final(self)@.coords =~= old(self)@.coords.update(i as int, val as int));
        }
    }

    pub fn set(&mut self)
        ensures
            final(self)@ == (CellModel { value: CellValue::Active, ..old(self)@ }),
    {
        self.value = CellValue::Active;
    }

    pub fn unset(&mut self)
        ensures
            final(self)@ == (CellModel { value: CellValue::Inactive, ..old(self)@ }),
    {
        self.value = CellValue::Inactive;
    }

    pub fn flip(&mut self)
        ensures
            final(self)@ == (CellModel {
                value: if old(self)@.value is Active {
                    CellValue::Inactive
                } else {
                    CellValue::Active
                },
                ..old(self)@
            }),
    {
        if self.value == CellValue::Active {
            self.value = CellValue::Inactive;
        } else {
            self.value = CellValue::Active;
        }
    }

    /// Content hash of the cell's coordinates alone.
    pub fn get_hash(&self) -> (r: u64)
        ensures
            r == coords_hash(self@.coords),
    {
        vec_hash(&self.coordinates)
    }

    /// The coordinate reached by applying the current cursor offset
    /// component-wise to the cell's own coordinate.
    pub fn get_nearby_coordinate(&self) -> (r: Vec<i32>)
        requires
            self@.wf(),
            self@.coords_in_range(),
        ensures
            as_ints(r@) == self@.nearby(),
    {
        let mut my_coordinates: Vec<i32> = Vec::new();
        let mut i: usize = 0;
        let n = self.coordinates.len();
        while i < n
            invariant
                i <= n,
                n == self@.coords.len(),
                self@.wf(),
                self@.coords_in_range(),
                my_coordinates@.len() == i,
                forall|j: int| 0 <= j < i ==> my_coordinates@[j] as int == self@.nearby()[j],
            decreases n - i,
        {
            let base = self.coordinates[i];
            proof {
                assert(base as int == self@.coords[i as int]);
                assert(i32::MIN < self@.coords[i as int] < i32::MAX);
            }
            let d = self.delta_coordinate[i];
            let next = match d {
                DeltaCoordinate::SameCoordinate => base,
                DeltaCoordinate::Positive => base + 1,
                DeltaCoordinate::Negative => base - 1,
            };
            my_coordinates.push(next);
            i = i + 1;
        }
        proof {
            assert(as_ints(my_coordinates@) =~= self@.nearby());
        }
        my_coordinates
    }

    /// True while some neighbour offset after the current cursor position
    /// remains to be enumerated.
    pub fn has_unexplored_nearby_cell(&self) -> (r: bool)
        ensures
            r <==> cursor_index(self@.delta) < pow3(self@.delta.len()) - 1,
    {
        let mut i: usize = 0;
        let n = self.delta_coordinate.len();
        while i < n
            invariant
                i <= n,
                n == self@.delta.len(),
                forall|j: int| 0 <= j < i ==> self@.delta[j] is Negative,
            decreases n - i,
        {
            if self.delta_coordinate[i] != DeltaCoordinate::Negative {
                proof {
                    lemma_cursor_index_bounds(self@.delta);
                    lemma_cursor_index_max(self@.delta);
                }
                return true;
            }
            i = i + 1;
        }
        proof {
            lemma_cursor_index_max(self@.delta);
        }
        false
    }

    /// Advance the cursor to the next neighbour offset (mixed-radix
    /// `SameCoordinate -> Positive -> Negative`, carrying across axes).
    pub fn generate_next_unexplored_nearby_cell(&mut self)
        requires
            cursor_index(old(self)@.delta) < pow3(old(self)@.delta.len()) - 1,
        ensures
            final(self)@.coords == old(self)@.coords,
            final(self)@.value == old(self)@.value,
            final(self)@.delta.len() == old(self)@.delta.len(),
            cursor_index(final(self)@.delta) == cursor_index(old(self)@.delta) + 1,
    {
        advance_delta(&mut self.delta_coordinate);
    }

    /// Rewind the cursor for a fresh neighbour sweep.
    pub fn reset_explore(&mut self)
        ensures
            final(self)@.coords == old(self)@.coords,
            final(self)@.value == old(self)@.value,
            final(self)@.delta.len() == old(self)@.delta.len(),
            forall|j: int|
                0 <= j < final(self)@.delta.len() ==> final(self)@.delta[j] is SameCoordinate,
            cursor_index(final(self)@.delta) == 0,
    {
        let mut i: usize = 0;
        let n = self.delta_coordinate.len();
        while i < n
            invariant
                i <= n,
                n == self@.delta.len(),
                self@.coords == old(self)@.coords,
                self@.value == old(self)@.value,
                self@.delta.len() == old(self)@.delta.len(),
                forall|j: int| 0 <= j < i ==> self@.delta[j] is SameCoordinate,
            decreases n - i,
        {
            self.delta_coordinate.set(i, DeltaCoordinate::SameCoordinate);
            i = i + 1;
        }
        proof {
            lemma_cursor_index_zero(self@.delta);
        }
    }
}

/// Multiply-accumulate digest of a coordinate vector.
pub fn vec_hash(v: &Vec<i32>) -> (r: u64)
    ensures
        r == coords_hash(as_ints(v@)),
{
    let mut acc: u64 = 0xcbf29ce484222325;
    let mut i: usize = 0;
    proof {
        assert(as_ints(v@).take(0) =~= Seq::<int>::empty());
    }
    while i < v.len()
        invariant
            i <= v@.len(),
            acc == coords_hash(as_ints(v@).take(i as int)),
        decreases v@.len() - i,
    {
        let x = v[i];
        let wide: u128 = (acc as u128) * 0x100000001b3u128 + ((x as u64) as u128);
        proof {
            assert((acc as u128) * 0x100000001b3u128 < 0x10000000000000000u128 * 0x100000001b3u128)
                by (nonlinear_arith)
                requires
                    acc < 0x10000000000000000u128,
            ;
        }
        acc = (wide % 0x10000000000000000u128) as u64;
        proof {
            let s = as_ints(v@);
            assert(s.take(i + 1).drop_last() =~= s.take(i as int));
            assert(s.take(i + 1).last() == s[i as int]);
            assert((s[i as int] as u64) == (x as u64));
        }
        i = i + 1;
    }
    proof {
        assert(as_ints(v@).take(v@.len() as int) =~= as_ints(v@));
    }
    acc
}

} // verus!
