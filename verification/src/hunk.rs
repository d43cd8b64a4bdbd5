//! Line ranges and hunk headers, and the containment rule between them.
//!
//! Lines are counted from 1. A range names the lines from its `start` up to,
//! but not including, `start + lines`; an empty range stands just before the
//! line `start`. A hunk says that the lines of its old range give way to the
//! lines of its new range.

use vstd::prelude::*;

verus! {

/// A run of lines: the number of its first line and how many lines it has.
#[derive(Clone, Copy, Debug, PartialEq, Eq, Structural, Hash)]
pub struct HunkRange {
    /// The number of the first line, 1-based.
    pub start: u32,
    /// The number of lines; 0 for an empty range.
    pub lines: u32,
}

impl HunkRange {
    /// The first line number past the range, as a mathematical integer.
    pub open spec fn spec_end(self) -> int {
        self.start + self.lines
    }

    /// `other` lies within `self`: it starts no earlier and ends no later.
    pub open spec fn spec_contains(self, other: HunkRange) -> bool {
        self.start <= other.start && other.spec_end() <= self.spec_end()
    }

    /// The first line number past the range.
    pub fn end(&self) -> (r: u64)
        ensures
            r == self.spec_end(),
    {
        self.start as u64 + self.lines as u64
    }

    /// Whether `other` lies within `self`.
    pub fn contains(self, other: HunkRange) -> (r: bool)
        ensures
            r == self.spec_contains(other),
    {
        other.start >= self.start && other.end() <= self.end()
    }

    /// The order of ranges: by first line, then by length.
    pub open spec fn spec_precedes(self, other: HunkRange) -> bool {
        self.start < other.start || (self.start == other.start && self.lines <= other.lines)
    }

    /// Whether `self` comes no later than `other` in the order of ranges.
    pub fn precedes(&self, other: &HunkRange) -> (r: bool)
        ensures
            r == self.spec_precedes(*other),
    {
        self.start < other.start || (self.start == other.start && self.lines <= other.lines)
    }
}

/// The header of a hunk: the lines it replaces in the old version of a file
/// and the lines that stand for them in the new version.
#[derive(Clone, Copy, Debug, PartialEq, Eq, Structural, Hash, Default)]
pub struct HunkHeader {
    /// The 1-based number of the first replaced line in the old version.
    pub old_start: u32,
    /// The number of replaced lines in the old version.
    pub old_lines: u32,
    /// The 1-based number of the first replacing line in the new version.
    pub new_start: u32,
    /// The number of replacing lines in the new version.
    pub new_lines: u32,
}

impl HunkHeader {
    /// Both ranges end at a line number that a `u32` can hold.
    pub open spec fn spec_representable(self) -> bool {
        self.spec_old_range().spec_end() <= u32::MAX && self.spec_new_range().spec_end()
            <= u32::MAX
    }

    /// The lines of the old version that the hunk replaces.
    pub open spec fn spec_old_range(self) -> HunkRange {
        HunkRange { start: self.old_start, lines: self.old_lines }
    }

    /// The lines of the new version that the hunk brings.
    pub open spec fn spec_new_range(self) -> HunkRange {
        HunkRange { start: self.new_start, lines: self.new_lines }
    }

    /// `other` names a part of `self`: it lies within `self` in the old
    /// version and in the new one, and it has one of its two ranges in common
    /// with `self`. The range in common says which hunk is meant; the other
    /// range says which of its lines. A hunk contains itself.
    pub open spec fn spec_contains(self, other: HunkHeader) -> bool {
        &&& self.spec_old_range().spec_contains(other.spec_old_range())
        &&& self.spec_new_range().spec_contains(other.spec_new_range())
        &&& other.spec_old_range() == self.spec_old_range() || other.spec_new_range()
            == self.spec_new_range()
    }

    /// The lines of the old version that the hunk replaces.
    pub fn old_range(&self) -> (r: HunkRange)
        ensures
            r == self.spec_old_range(),
    {
        HunkRange { start: self.old_start, lines: self.old_lines }
    }

    /// The lines of the new version that the hunk brings.
    pub fn new_range(&self) -> (r: HunkRange)
        ensures
            r == self.spec_new_range(),
    {
        HunkRange { start: self.new_start, lines: self.new_lines }
    }

    /// Whether both ranges end at a line number that a `u32` can hold.
    pub fn representable(&self) -> (r: bool)
        ensures
            r == self.spec_representable(),
    {
        self.old_range().end() <= 0xffff_ffff && self.new_range().end() <= 0xffff_ffff
    }

    /// Whether `other` names a part of `self`: all of it, some of its old
    /// lines, or some of its new lines.
    pub fn contains(self, other: HunkHeader) -> (r: bool)
        ensures
            r == self.spec_contains(other),
    {
        self.old_range().contains(other.old_range()) && self.new_range().contains(
            other.new_range(),
        ) && (other.old_range() == self.old_range() || other.new_range() == self.new_range())
    }
}

} // verus!
