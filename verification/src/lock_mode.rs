//! Table lock modes and how severely each affects concurrent work.

use crate::ratio::Ratio;
use vstd::prelude::*;

verus! {

#[derive(Copy, Clone, Debug, PartialEq, Eq, Structural)]
pub enum LockMode {
    AccessShare,
    RowShare,
    RowExclusive,
    ShareUpdateExclusive,
    Share,
    ShareRowExclusive,
    Exclusive,
    AccessExclusive,
}

impl LockMode {
    /// The severity of the mode, in hundredths.
    pub open spec fn severity_percent(self) -> int {
        match self {
            LockMode::AccessShare => 5,
            LockMode::RowShare => 10,
            LockMode::RowExclusive => 25,
            LockMode::ShareUpdateExclusive => 40,
            LockMode::Share => 45,
            LockMode::ShareRowExclusive => 65,
            LockMode::Exclusive => 80,
            LockMode::AccessExclusive => 100,
        }
    }

    /// The name under which the lock catalogue lists the mode.
    pub open spec fn pg_name(self) -> Seq<char> {
        match self {
            LockMode::AccessShare => "AccessShareLock"@,
            LockMode::RowShare => "RowShareLock"@,
            LockMode::RowExclusive => "RowExclusiveLock"@,
            LockMode::ShareUpdateExclusive => "ShareUpdateExclusiveLock"@,
            LockMode::Share => "ShareLock"@,
            LockMode::ShareRowExclusive => "ShareRowExclusiveLock"@,
            LockMode::Exclusive => "ExclusiveLock"@,
            LockMode::AccessExclusive => "AccessExclusiveLock"@,
        }
    }

    /// The mode that is listed under `name`, or `RowExclusive` where none is.
    pub open spec fn named(name: Seq<char>) -> LockMode {
        if exists|mode: LockMode| name == #[trigger] mode.pg_name() {
            choose|mode: LockMode| name == #[trigger] mode.pg_name()
        } else {
            LockMode::RowExclusive
        }
    }

    /// The position of the mode in the list of modes, weakest first.
    pub open spec fn rank(self) -> int {
        match self {
            LockMode::AccessShare => 0,
            LockMode::RowShare => 1,
            LockMode::RowExclusive => 2,
            LockMode::ShareUpdateExclusive => 3,
            LockMode::Share => 4,
            LockMode::ShareRowExclusive => 5,
            LockMode::Exclusive => 6,
            LockMode::AccessExclusive => 7,
        }
    }

    /// Approximate weight of the mode's effect on concurrent throughput, between
    /// zero and one.
    pub fn severity(&self) -> (r: Ratio)
        ensures
            r.num == self.severity_percent(),
            r.den == 100,
            self == LockMode::AccessShare ==> r.num == 5,
            self == LockMode::RowShare ==> r.num == 10,
            self == LockMode::RowExclusive ==> r.num == 25,
            self == LockMode::ShareUpdateExclusive ==> r.num == 40,
            self == LockMode::Share ==> r.num == 45,
            self == LockMode::ShareRowExclusive ==> r.num == 65,
            self == LockMode::Exclusive ==> r.num == 80,
            self == LockMode::AccessExclusive ==> r.num == 100,
    {
        let percent: i128 = match self {
            LockMode::AccessShare => 5,
            LockMode::RowShare => 10,
            LockMode::RowExclusive => 25,
            LockMode::ShareUpdateExclusive => 40,
            LockMode::Share => 45,
            LockMode::ShareRowExclusive => 65,
            LockMode::Exclusive => 80,
            LockMode::AccessExclusive => 100,
        };
        Ratio { num: percent, den: 100 }
    }

    /// The mode that `s` names. A name that is not known counts as
    /// `RowExclusive`: a conservative default, not silently `AccessShare`.
    pub fn from_pg_str(s: &str) -> (r: Self)
        ensures
            r == LockMode::named(s@),
            forall|mode: LockMode| s@ == #[trigger] mode.pg_name() ==> r == mode,
            (forall|mode: LockMode| s@ != #[trigger] mode.pg_name()) ==> r
                == LockMode::RowExclusive,
    {
        proof {
            lemma_names_distinct();
        }
        let name = s.to_owned();
        if name == "AccessShareLock".to_owned() {
            assert(name@ == LockMode::AccessShare.pg_name());
            LockMode::AccessShare
        } else if name == "RowShareLock".to_owned() {
            assert(name@ == LockMode::RowShare.pg_name());
            LockMode::RowShare
        } else if name == "RowExclusiveLock".to_owned() {
            assert(name@ == LockMode::RowExclusive.pg_name());
            LockMode::RowExclusive
        } else if name == "ShareUpdateExclusiveLock".to_owned() {
            assert(name@ == LockMode::ShareUpdateExclusive.pg_name());
            LockMode::ShareUpdateExclusive
        } else if name == "ShareLock".to_owned() {
            assert(name@ == LockMode::Share.pg_name());
            LockMode::Share
        } else if name == "ShareRowExclusiveLock".to_owned() {
            assert(name@ == LockMode::ShareRowExclusive.pg_name());
            LockMode::ShareRowExclusive
        } else if name == "ExclusiveLock".to_owned() {
            assert(name@ == LockMode::Exclusive.pg_name());
            LockMode::Exclusive
        } else if name == "AccessExclusiveLock".to_owned() {
            assert(name@ == LockMode::AccessExclusive.pg_name());
            LockMode::AccessExclusive
        } else {
            LockMode::RowExclusive
        }
    }
}

/// No two modes have the same name.
proof fn lemma_names_distinct()
    ensures
        forall|a: LockMode, b: LockMode| #[trigger] a.pg_name() == #[trigger] b.pg_name() ==> a == b,
{
    reveal_strlit("AccessShareLock");
    reveal_strlit("RowShareLock");
    reveal_strlit("RowExclusiveLock");
    reveal_strlit("ShareUpdateExclusiveLock");
    reveal_strlit("ShareLock");
    reveal_strlit("ShareRowExclusiveLock");
    reveal_strlit("ExclusiveLock");
    reveal_strlit("AccessExclusiveLock");
    assert forall|a: LockMode, b: LockMode| #[trigger]
        a.pg_name() == #[trigger] b.pg_name() implies a == b by {
        if a != b {
            assert(a.pg_name().len() != b.pg_name().len());
        }
    }
}

/// A stronger mode is strictly more severe, and every severity lies above zero
/// and is at most one.
pub proof fn law_severity_grows_with_the_mode(weaker: LockMode, stronger: LockMode)
    requires
        weaker.rank() < stronger.rank(),
    ensures
        0 < weaker.severity_percent() < stronger.severity_percent() <= 100,
{
}

/// A mode is found under the name that the lock catalogue gives it, and under that
/// name alone; whatever else is looked up counts as `RowExclusive`.
pub proof fn law_modes_are_found_by_name(name: Seq<char>)
    ensures
        LockMode::named(name) == LockMode::AccessShare <==> name == "AccessShareLock"@,
        LockMode::named(name) == LockMode::RowShare <==> name == "RowShareLock"@,
        LockMode::named(name) == LockMode::ShareUpdateExclusive <==> name
            == "ShareUpdateExclusiveLock"@,
        LockMode::named(name) == LockMode::Share <==> name == "ShareLock"@,
        LockMode::named(name) == LockMode::ShareRowExclusive <==> name == "ShareRowExclusiveLock"@,
        LockMode::named(name) == LockMode::Exclusive <==> name == "ExclusiveLock"@,
        LockMode::named(name) == LockMode::AccessExclusive <==> name == "AccessExclusiveLock"@,
{
    lemma_names_distinct();
    assert(LockMode::AccessShare.pg_name() == "AccessShareLock"@);
    assert(LockMode::RowShare.pg_name() == "RowShareLock"@);
    assert(LockMode::RowExclusive.pg_name() == "RowExclusiveLock"@);
    assert(LockMode::ShareUpdateExclusive.pg_name() == "ShareUpdateExclusiveLock"@);
    assert(LockMode::Share.pg_name() == "ShareLock"@);
    assert(LockMode::ShareRowExclusive.pg_name() == "ShareRowExclusiveLock"@);
    assert(LockMode::Exclusive.pg_name() == "ExclusiveLock"@);
    assert(LockMode::AccessExclusive.pg_name() == "AccessExclusiveLock"@);
}

/// The severities that scores are made of, in hundredths.
pub proof fn law_severities(mode: LockMode)
    ensures
        mode == LockMode::AccessShare ==> mode.severity_percent() == 5,
        mode == LockMode::RowShare ==> mode.severity_percent() == 10,
        mode == LockMode::RowExclusive ==> mode.severity_percent() == 25,
        mode == LockMode::ShareUpdateExclusive ==> mode.severity_percent() == 40,
        mode == LockMode::Share ==> mode.severity_percent() == 45,
        mode == LockMode::ShareRowExclusive ==> mode.severity_percent() == 65,
        mode == LockMode::Exclusive ==> mode.severity_percent() == 80,
        mode == LockMode::AccessExclusive ==> mode.severity_percent() == 100,
{
}

} // verus!
