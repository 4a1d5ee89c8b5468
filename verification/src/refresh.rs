//! The auto-refresh control's logic: the refresh-interval codec and the
//! "updated … ago" freshness label.

use vstd::prelude::*;
use crate::text::{chars_of, concat, decimal, decimal_chars, owned, same_text, string_of};

verus! {

/// Operator-selectable auto-refresh cadence of a data table. `Off` (the default) loads
/// the list once.
#[derive(Debug, Clone, Copy, PartialEq, Eq, Structural)]
pub enum RefreshInterval {
    Off,
    S5,
    S15,
    S30,
    S60,
}

impl Default for RefreshInterval {
    fn default() -> (r: Self)
        ensures
            r == RefreshInterval::Off,
    {
        RefreshInterval::Off
    }
}

/// The cadence of an interval in milliseconds; `None` for `Off`.
pub open spec fn interval_millis(i: RefreshInterval) -> Option<u32> {
    match i {
        RefreshInterval::Off => None,
        RefreshInterval::S5 => Some(5_000),
        RefreshInterval::S15 => Some(15_000),
        RefreshInterval::S30 => Some(30_000),
        RefreshInterval::S60 => Some(60_000),
    }
}

/// The dropdown label of an interval.
pub open spec fn interval_label(i: RefreshInterval) -> Seq<char> {
    match i {
        RefreshInterval::Off => "Off"@,
        RefreshInterval::S5 => "5s"@,
        RefreshInterval::S15 => "15s"@,
        RefreshInterval::S30 => "30s"@,
        RefreshInterval::S60 => "60s"@,
    }
}

/// The stored token of an interval.
pub open spec fn interval_token(i: RefreshInterval) -> Seq<char> {
    match i {
        RefreshInterval::Off => "off"@,
        RefreshInterval::S5 => "5"@,
        RefreshInterval::S15 => "15"@,
        RefreshInterval::S30 => "30"@,
        RefreshInterval::S60 => "60"@,
    }
}

/// The interval a token names; anything unrecognized is `Off`.
pub open spec fn interval_from_token(t: Seq<char>) -> RefreshInterval {
    if t == "5"@ {
        RefreshInterval::S5
    } else if t == "15"@ {
        RefreshInterval::S15
    } else if t == "30"@ {
        RefreshInterval::S30
    } else if t == "60"@ {
        RefreshInterval::S60
    } else {
        RefreshInterval::Off
    }
}

impl RefreshInterval {
    /// Every interval in selector order.
    pub const ALL: [RefreshInterval; 5] = [
        RefreshInterval::Off,
        RefreshInterval::S5,
        RefreshInterval::S15,
        RefreshInterval::S30,
        RefreshInterval::S60,
    ];

    /// The cadence in milliseconds, or `None` for `Off`.
    pub fn as_millis(self) -> (r: Option<u32>)
        ensures
            r == interval_millis(self),
    {
        match self {
            RefreshInterval::Off => None,
            RefreshInterval::S5 => Some(5_000),
            RefreshInterval::S15 => Some(15_000),
            RefreshInterval::S30 => Some(30_000),
            RefreshInterval::S60 => Some(60_000),
        }
    }

    /// Short label shown in the dropdown.
    pub fn label(self) -> (r: &'static str)
        ensures
            r@ == interval_label(self),
    {
        match self {
            RefreshInterval::Off => "Off",
            RefreshInterval::S5 => "5s",
            RefreshInterval::S15 => "15s",
            RefreshInterval::S30 => "30s",
            RefreshInterval::S60 => "60s",
        }
    }

    /// Stable token used as the option value and the persisted form.
    pub fn to_token(self) -> (r: &'static str)
        ensures
            r@ == interval_token(self),
    {
        match self {
            RefreshInterval::Off => "off",
            RefreshInterval::S5 => "5",
            RefreshInterval::S15 => "15",
            RefreshInterval::S30 => "30",
            RefreshInterval::S60 => "60",
        }
    }

    /// The interval a token names, `Off` for anything unrecognized.
    pub fn from_token(token: &str) -> (r: Self)
        ensures
            r == interval_from_token(token@),
    {
        if same_text(token, "5") {
            RefreshInterval::S5
        } else if same_text(token, "15") {
            RefreshInterval::S15
        } else if same_text(token, "30") {
            RefreshInterval::S30
        } else if same_text(token, "60") {
            RefreshInterval::S60
        } else {
            RefreshInterval::Off
        }
    }
}

/// The freshness cue for data loaded `secs` seconds ago: "updated just now" under a
/// minute, then whole minutes, then whole hours.
pub open spec fn freshness_text(secs: u64) -> Seq<char> {
    if secs < 60 {
        "updated just now"@
    } else if secs < 3_600 {
        "updated "@ + decimal((secs / 60) as nat) + "m ago"@
    } else {
        "updated "@ + decimal((secs / 3_600) as nat) + "h ago"@
    }
}

/// Formats the time since the last load for the freshness cue.
pub fn fmt_freshness(secs_ago: u64) -> (r: String)
    ensures
        r@ == freshness_text(secs_ago),
{
    if secs_ago < 60 {
        return owned("updated just now");
    }
    let (n, unit) = if secs_ago < 3_600 {
        (secs_ago / 60, "m ago")
    } else {
        (secs_ago / 3_600, "h ago")
    };
    let head = chars_of("updated ");
    let digits = decimal_chars(n);
    let tail = chars_of(unit);
    let a = concat(head.as_slice(), digits.as_slice());
    let b = concat(a.as_slice(), tail.as_slice());
    string_of(b.as_slice())
}

// ─── Laws ───────────────────────────────────────────────────────────────────

/// Every interval decodes back from its own token.
pub proof fn lemma_interval_token_roundtrip(i: RefreshInterval)
    ensures
        interval_from_token(interval_token(i)) == i,
{
    reveal_strlit("off");
    reveal_strlit("5");
    reveal_strlit("15");
    reveal_strlit("30");
    reveal_strlit("60");
    assert("off"@.len() != "5"@.len() && "off"@.len() != "15"@.len() && "off"@.len() != "30"@.len());
    assert("off"@.len() != "60"@.len());
    assert("5"@.len() != "15"@.len() && "5"@.len() != "30"@.len() && "5"@.len() != "60"@.len());
    assert("15"@[0] != "30"@[0] && "15"@[0] != "60"@[0] && "30"@[0] != "60"@[0]);
}

/// Only `Off` has no cadence.
pub proof fn lemma_only_off_is_manual(i: RefreshInterval)
    ensures
        (interval_millis(i) is None) == (i == RefreshInterval::Off),
{
}

} // verus!
