use vstd::prelude::*;

verus! {

/// Vector of 3 elements
#[derive(Debug, Clone, Copy, PartialEq, Eq, PartialOrd, Ord, Hash, Default)]
pub struct Vec3<T>(pub T, pub T, pub T);

/// Axis in 3D space
#[derive(Debug, Clone, Copy, PartialEq, Eq, Hash, Structural)]
pub enum Axis {
    X,
    Y,
    Z,
}

impl Axis {
    /// The index of the axis in a vector: 0 for X, 1 for Y, 2 for Z
    pub open spec fn index(self) -> int {
        match self {
            Axis::X => 0,
            Axis::Y => 1,
            Axis::Z => 2,
        }
    }

    /// The axis that a number stands for: 0, 1 or 2
    pub fn from_u32(axis: u32) -> (r: Option<Axis>)
        ensures
            axis > 2 <==> r is None,
            r matches Some(a) ==> a.index() == axis,
    {
        match axis {
            0 => Some(Axis::X),
            1 => Some(Axis::Y),
            2 => Some(Axis::Z),
            _ => None,
        }
    }

    /// The number that stands for the axis, the inverse of `from_u32`
    pub fn to_u32(self) -> (r: u32)
        ensures
            r == self.index(),
    {
        match self {
            Axis::X => 0,
            Axis::Y => 1,
            Axis::Z => 2,
        }
    }
}

impl<T> Vec3<T> {
    /// The component on the given axis
    pub open spec fn at(self, axis: Axis) -> T {
        match axis {
            Axis::X => self.0,
            Axis::Y => self.1,
            Axis::Z => self.2,
        }
    }

    /// The vector with the component on the given axis replaced
    pub open spec fn with(self, axis: Axis, value: T) -> Vec3<T> {
        match axis {
            Axis::X => Vec3(value, self.1, self.2),
            Axis::Y => Vec3(self.0, value, self.2),
            Axis::Z => Vec3(self.0, self.1, value),
        }
    }

    /// The first component
    #[inline]
    pub fn x_ref(&self) -> (r: &T)
        ensures
            *r == self.0,
    {
        &self.0
    }

    /// The second component
    #[inline]
    pub fn y_ref(&self) -> (r: &T)
        ensures
            *r == self.1,
    {
        &self.1
    }

    /// The third component
    #[inline]
    pub fn z_ref(&self) -> (r: &T)
        ensures
            *r == self.2,
    {
        &self.2
    }

    /// The first component, to be changed in place
    #[inline]
    pub fn x_mut(&mut self) -> (r: &mut T)
        ensures
            *r == old(self).0,
            *final(self) == Vec3(*final(r), old(self).1, old(self).2),
    {
        &mut self.0
    }

    /// The second component, to be changed in place
    #[inline]
    pub fn y_mut(&mut self) -> (r: &mut T)
        ensures
            *r == old(self).1,
            *final(self) == Vec3(old(self).0, *final(r), old(self).2),
    {
        &mut self.1
    }

    /// The third component, to be changed in place
    #[inline]
    pub fn z_mut(&mut self) -> (r: &mut T)
        ensures
            *r == old(self).2,
            *final(self) == Vec3(old(self).0, old(self).1, *final(r)),
    {
        &mut self.2
    }

    /// The component on `axis`
    #[inline]
    pub fn on_ref(&self, axis: Axis) -> (r: &T)
        ensures
            *r == self.at(axis),
    {
        match axis {
            Axis::X => self.x_ref(),
            Axis::Y => self.y_ref(),
            Axis::Z => self.z_ref(),
        }
    }

    /// The component on `axis`, to be changed in place
    #[inline]
    pub fn on_mut(&mut self, axis: Axis) -> (r: &mut T)
        ensures
            *r == old(self).at(axis),
            *final(self) == old(self).with(axis, *final(r)),
    {
        match axis {
            Axis::X => self.x_mut(),
            Axis::Y => self.y_mut(),
            Axis::Z => self.z_mut(),
        }
    }
}

impl<T: Copy> Vec3<T> {
    /// The first component
    #[inline]
    pub fn x(&self) -> (r: T)
        ensures
            r == self.0,
    {
        self.0
    }

    /// The second component
    #[inline]
    pub fn y(&self) -> (r: T)
        ensures
            r == self.1,
    {
        self.1
    }

    /// The third component
    #[inline]
    pub fn z(&self) -> (r: T)
        ensures
            r == self.2,
    {
        self.2
    }

    /// The component on `axis`
    #[inline]
    pub fn on(&self, axis: Axis) -> (r: T)
        ensures
            r == self.at(axis),
    {
        match axis {
            Axis::X => self.x(),
            Axis::Y => self.y(),
            Axis::Z => self.z(),
        }
    }
}

impl Vec3<u32> {
    /// If all three components are positive
    pub fn all_positive(&self) -> (r: bool)
        ensures
            r <==> self.0 > 0 && self.1 > 0 && self.2 > 0,
    {
        self.0 > 0 && self.1 > 0 && self.2 > 0
    }
}

impl Vec3<i32> {
    /// If all three components are positive
    pub fn all_positive(&self) -> (r: bool)
        ensures
            r <==> self.0 > 0 && self.1 > 0 && self.2 > 0,
    {
        self.0 > 0 && self.1 > 0 && self.2 > 0
    }

    /// Whether the component-wise sum with `other` fits the component type
    pub open spec fn can_add(self, other: Vec3<i32>) -> bool {
        &&& i32::MIN <= self.0 + other.0 <= i32::MAX
        &&& i32::MIN <= self.1 + other.1 <= i32::MAX
        &&& i32::MIN <= self.2 + other.2 <= i32::MAX
    }

    /// Whether the component-wise difference with `other` fits the component type
    pub open spec fn can_sub(self, other: Vec3<i32>) -> bool {
        &&& i32::MIN <= self.0 - other.0 <= i32::MAX
        &&& i32::MIN <= self.1 - other.1 <= i32::MAX
        &&& i32::MIN <= self.2 - other.2 <= i32::MAX
    }

    /// The component-wise sum, or `None` where a component leaves the range of `i32`
    pub fn checked_add(&self, other: Vec3<i32>) -> (r: Option<Vec3<i32>>)
        ensures
            r is Some <==> self.can_add(other),
            r matches Some(s) ==> s.0 == self.0 + other.0 && s.1 == self.1 + other.1 && s.2
                == self.2 + other.2,
    {
        match (self.0.checked_add(other.0), self.1.checked_add(other.1), self.2.checked_add(other.2)) {
            (Some(x), Some(y), Some(z)) => Some(Vec3(x, y, z)),
            _ => None,
        }
    }

    /// The component-wise difference, or `None` where a component leaves the range of `i32`
    pub fn checked_sub(&self, other: Vec3<i32>) -> (r: Option<Vec3<i32>>)
        ensures
            r is Some <==> self.can_sub(other),
            r matches Some(s) ==> s.0 == self.0 - other.0 && s.1 == self.1 - other.1 && s.2
                == self.2 - other.2,
    {
        match (self.0.checked_sub(other.0), self.1.checked_sub(other.1), self.2.checked_sub(other.2)) {
            (Some(x), Some(y), Some(z)) => Some(Vec3(x, y, z)),
            _ => None,
        }
    }

    /// Whether all three components are zero
    pub fn is_zero(&self) -> (r: bool)
        ensures
            r <==> self.0 == 0 && self.1 == 0 && self.2 == 0,
    {
        self.0 == 0 && self.1 == 0 && self.2 == 0
    }
}

impl<T> From<(T, T, T)> for Vec3<T> {
    fn from(t: (T, T, T)) -> (r: Self) {
        Vec3(t.0, t.1, t.2)
    }
}

impl<T> vstd::std_specs::convert::FromSpecImpl<(T, T, T)> for Vec3<T> {
    open spec fn obeys_from_spec() -> bool {
        true
    }

    open spec fn from_spec(t: (T, T, T)) -> Self {
        Vec3(t.0, t.1, t.2)
    }
}

impl From<Axis> for u32 {
    fn from(axis: Axis) -> (r: u32) {
        axis.to_u32()
    }
}

impl vstd::std_specs::convert::FromSpecImpl<Axis> for u32 {
    open spec fn obeys_from_spec() -> bool {
        true
    }

    open spec fn from_spec(axis: Axis) -> u32 {
        axis.index() as u32
    }
}

impl core::ops::Add for Vec3<i32> {
    type Output = Vec3<i32>;

    fn add(self, rhs: Vec3<i32>) -> (r: Vec3<i32>) {
        Vec3(self.0 + rhs.0, self.1 + rhs.1, self.2 + rhs.2)
    }
}

impl vstd::std_specs::ops::AddSpecImpl for Vec3<i32> {
    open spec fn obeys_add_spec() -> bool {
        true
    }

    open spec fn add_req(self, rhs: Vec3<i32>) -> bool {
        self.can_add(rhs)
    }

    open spec fn add_spec(self, rhs: Vec3<i32>) -> Vec3<i32> {
        Vec3((self.0 + rhs.0) as i32, (self.1 + rhs.1) as i32, (self.2 + rhs.2) as i32)
    }
}

impl core::ops::Sub for Vec3<i32> {
    type Output = Vec3<i32>;

    fn sub(self, rhs: Vec3<i32>) -> (r: Vec3<i32>) {
        Vec3(self.0 - rhs.0, self.1 - rhs.1, self.2 - rhs.2)
    }
}

impl vstd::std_specs::ops::SubSpecImpl for Vec3<i32> {
    open spec fn obeys_sub_spec() -> bool {
        true
    }

    open spec fn sub_req(self, rhs: Vec3<i32>) -> bool {
        self.can_sub(rhs)
    }

    open spec fn sub_spec(self, rhs: Vec3<i32>) -> Vec3<i32> {
        Vec3((self.0 - rhs.0) as i32, (self.1 - rhs.1) as i32, (self.2 - rhs.2) as i32)
    }
}

} // verus!
