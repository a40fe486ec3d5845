//! The `HHh MMm` rendering of durations.

use vstd::prelude::*;
use vstd::string::StringExecFns;

use crate::calendar::Duration;
use crate::numtext::{min_width_2, push_min_width_2};

verus! {

/// The `HHh MMm` display of a nonnegative minute count: whole hours, then the
/// minutes left after subtracting them, each at a two-digit minimum width, so
/// that hours times sixty plus the displayed minutes gives the total back.
pub open spec fn pretty_duration(total_minutes: int) -> Seq<char>
    recommends
        total_minutes >= 0,
{
    min_width_2((total_minutes / 60) as nat) + "h "@ + min_width_2(
        (total_minutes - (total_minutes / 60) * 60) as nat,
    ) + "m"@
}

/// A human-readable rendering, with a spec saying which text it is.
pub trait PrettyString {
    /// When the rendering is meaningful.
    spec fn pretty_ok(&self) -> bool;

    /// The text the rendering produces.
    spec fn pretty_spec(&self) -> Seq<char>;

    fn to_pretty_string(&self) -> (r: String)
        requires
            self.pretty_ok(),
        ensures
            r@ == self.pretty_spec(),
    ;
}

impl PrettyString for Duration {
    open spec fn pretty_ok(&self) -> bool {
        self.minutes >= 0
    }

    open spec fn pretty_spec(&self) -> Seq<char> {
        pretty_duration(self.minutes as int)
    }

    fn to_pretty_string(&self) -> (r: String) {
        let total = self.minutes as u64;
        let hours = total / 60;
        let rem = total % 60;
        let mut s = String::new();
        push_min_width_2(&mut s, hours);
        s.append("h ");
        push_min_width_2(&mut s, rem);
        s.append("m");
        proof {
            assert(rem == total - hours * 60);
            assert(s@ =~= pretty_duration(self.minutes as int));
        }
        s
    }
}

} // verus!
