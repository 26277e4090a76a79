//! Staking and unstaking over an asset's attribute list.
//!
//! The list holds `frozen` ("1" while staked, "0" otherwise), `staked` (the
//! time at which the current stake began, in seconds) and `staked_time` (the
//! seconds accumulated over earlier stakes), beside any other attributes,
//! which are kept as they are.

use vstd::prelude::*;
use crate::decimal::{decimal, format_i64, in_i64, lemma_decimal_round_trip, parse_i64, parsed_i64};

verus! {

/// One key/value pair of an asset's attribute list.
#[derive(Clone, Debug)]
pub struct Attribute {
    pub key: String,
    pub value: String,
}

/// An attribute as a pair of character sequences: key, then value.
pub type Entry = (Seq<char>, Seq<char>);

impl View for Attribute {
    type V = Entry;

    open spec fn view(&self) -> Entry {
        (self.key@, self.value@)
    }
}

impl Attribute {
    pub fn new(key: String, value: String) -> (r: Attribute)
        ensures
            r.key == key,
            r.value == value,
    {
        Attribute { key, value }
    }

    fn duplicate(&self) -> (r: Attribute)
        ensures
            r@ == self@,
    {
        Attribute { key: self.key.clone(), value: self.value.clone() }
    }
}

/// Why a stake or an unstake is refused.
#[derive(Clone, Copy, Debug, PartialEq, Eq, Structural)]
pub enum StakingError {
    OwnerMismatched,
    InvalidTimestamp,
    AlreadyStaked,
    NotStaked,
    StakingNotInitialized,
    AttributesNotInitialized,
    Underflow,
    Overflow,
}

/// How the attribute plugin of the asset is to be written.
#[derive(Debug)]
pub enum PluginWrite {
    /// The asset has no attribute plugin yet: add one with this list.
    Add(Vec<Attribute>),
    /// The asset has one: replace its list with this one.
    Update(Vec<Attribute>),
}

impl View for PluginWrite {
    /// Whether the plugin is added, and the list written.
    type V = (bool, Seq<Entry>);

    open spec fn view(&self) -> (bool, Seq<Entry>) {
        match self {
            PluginWrite::Add(v) => (true, entries(v@)),
            PluginWrite::Update(v) => (false, entries(v@)),
        }
    }
}

pub open spec fn entries(s: Seq<Attribute>) -> Seq<Entry> {
    s.map_values(|a: Attribute| a@)
}

pub open spec fn attributes_view(a: Option<Vec<Attribute>>) -> Option<Seq<Entry>> {
    match a {
        Some(v) => Some(entries(v@)),
        None => None,
    }
}

pub open spec fn frozen_key() -> Seq<char> {
    "frozen"@
}

pub open spec fn staked_key() -> Seq<char> {
    "staked"@
}

pub open spec fn staked_time_key() -> Seq<char> {
    "staked_time"@
}

pub open spec fn yes() -> Seq<char> {
    "1"@
}

pub open spec fn no() -> Seq<char> {
    "0"@
}

/// The list that a first stake at time `now` writes.
pub open spec fn fresh_entries(now: int) -> Seq<Entry> {
    seq![(frozen_key(), yes()), (staked_key(), decimal(now)), (staked_time_key(), decimal(0))]
}

/// Some attribute of `l` has key `k`.
pub open spec fn has_key(l: Seq<Entry>, k: Seq<char>) -> bool {
    exists|i: int| 0 <= i < l.len() && (#[trigger] l[i]).0 == k
}

/// Some `frozen` attribute of `l` is not "0": the asset is held already.
pub open spec fn frozen_elsewhere(l: Seq<Entry>) -> bool {
    exists|i: int| 0 <= i < l.len() && (#[trigger] l[i]).0 == frozen_key() && l[i].1 != no()
}

/// What staking at `now` makes of one attribute.
pub open spec fn stake_entry(e: Entry, now: int) -> Entry {
    if e.0 == frozen_key() {
        (frozen_key(), yes())
    } else if e.0 == staked_key() {
        (staked_key(), decimal(now))
    } else {
        e
    }
}

/// The list that staking at `now` makes of an existing list `l`: each
/// attribute rewritten in place, and, where `l` has no `staked` attribute,
/// the three staking attributes appended.
pub open spec fn staked_entries(l: Seq<Entry>, now: int) -> Seq<Entry> {
    let kept = l.map_values(|e: Entry| stake_entry(e, now));
    if has_key(l, staked_key()) {
        kept
    } else {
        kept + fresh_entries(now)
    }
}

/// The outcome of staking at `now` an asset whose attribute list is `attrs`
/// (`None`: the asset has no attribute plugin).
pub open spec fn stake_outcome(attrs: Option<Seq<Entry>>, now: int) -> Result<(bool, Seq<Entry>), StakingError> {
    match attrs {
        None => Ok((true, fresh_entries(now))),
        Some(l) => if frozen_elsewhere(l) {
            Err(StakingError::OwnerMismatched)
        } else {
            Ok((false, staked_entries(l, now)))
        },
    }
}

pub open spec fn write_view(r: Result<PluginWrite, StakingError>) -> Result<(bool, Seq<Entry>), StakingError> {
    match r {
        Ok(w) => Ok(w@),
        Err(e) => Err(e),
    }
}

proof fn lemma_keys_differ()
    ensures
        frozen_key() != staked_key(),
        frozen_key() != staked_time_key(),
        staked_key() != staked_time_key(),
        yes() != no(),
{
    reveal_strlit("frozen");
    reveal_strlit("staked");
    reveal_strlit("staked_time");
    reveal_strlit("1");
    reveal_strlit("0");
    assert(frozen_key()[0] != staked_key()[0]);
    assert(staked_key().len() != staked_time_key().len());
    assert(yes()[0] != no()[0]);
}

fn key_is(s: &String, lit: &str) -> (r: bool)
    ensures
        r == (s@ == lit@),
{
    let l = lit.to_owned();
    *s == l
}

fn attribute(key: &str, value: String) -> (r: Attribute)
    ensures
        r@ == (key@, value@),
{
    Attribute { key: key.to_owned(), value }
}

fn fresh_attributes(now: i64) -> (r: Vec<Attribute>)
    ensures
        entries(r@) == fresh_entries(now as int),
{
    let mut r: Vec<Attribute> = Vec::new();
    r.push(attribute("frozen", "1".to_owned()));
    r.push(attribute("staked", format_i64(now)));
    r.push(attribute("staked_time", format_i64(0)));
    assert(entries(r@) =~= fresh_entries(now as int));
    r
}

/// Stakes an asset at time `now`: marks it frozen and records `now` as the
/// start of the stake. `attributes` is the asset's attribute list, or `None`
/// where it has no attribute plugin yet. Fails with `OwnerMismatched` where a
/// `frozen` attribute is not "0".
pub fn stake(attributes: Option<Vec<Attribute>>, now: i64) -> (r: Result<PluginWrite, StakingError>)
    ensures
        write_view(r) == stake_outcome(attributes_view(attributes), now as int),
{
    let ghost input = attributes_view(attributes);
    match attributes {
        None => Ok(PluginWrite::Add(fresh_attributes(now))),
        Some(list) => {
            let ghost l = entries(list@);
            let mut out: Vec<Attribute> = Vec::new();
            let mut is_initialized = false;
            let mut i: usize = 0;
            while i < list.len()
                invariant
                    l == entries(list@),
                    input == Some(l),
                    input == attributes_view(attributes),
                    0 <= i <= list.len(),
                    entries(out@) == l.take(i as int).map_values(|e: Entry| stake_entry(e, now as int)),
                    is_initialized == has_key(l.take(i as int), staked_key()),
                    !frozen_elsewhere(l.take(i as int)),
                decreases list.len() - i,
            {
                let a = &list[i];
                let ghost before = out@;
                proof {
                    lemma_keys_differ();
                    assert(l[i as int] == a@);
                    assert(l.take(i + 1) =~= l.take(i as int).push(a@));
                }
                if key_is(&a.key, "frozen") {
                    if !key_is(&a.value, "0") {
                        proof {
                            assert(l[i as int].0 == frozen_key() && l[i as int].1 != no());
                            assert(frozen_elsewhere(l));
                        }
                        return Err(StakingError::OwnerMismatched);
                    }
                    out.push(attribute("frozen", "1".to_owned()));
                } else if key_is(&a.key, "staked") {
                    out.push(attribute("staked", format_i64(now)));
                    is_initialized = true;
                } else {
                    out.push(a.duplicate());
                }
                proof {
                    let t = l.take(i + 1);
                    assert(entries(out@) =~= entries(before).push(stake_entry(a@, now as int)));
                    assert(entries(out@) =~= t.map_values(|e: Entry| stake_entry(e, now as int)));
                    if is_initialized {
                        if !has_key(l.take(i as int), staked_key()) {
                            assert(t[i as int].0 == staked_key());
                        }
                    }
                    if has_key(t, staked_key()) {
                        let j = choose|j: int| 0 <= j < t.len() && (#[trigger] t[j]).0 == staked_key();
                        if j < i {
                            assert(l.take(i as int)[j] == t[j]);
                        }
                    }
                    if frozen_elsewhere(t) {
                        let j = choose|j: int| 0 <= j < t.len() && (#[trigger] t[j]).0 == frozen_key() && t[j].1 != no();
                        assert(l.take(i as int)[j] == t[j]);
                    }
                }
                i += 1;
            }
            proof {
                assert(l.take(i as int) =~= l);
            }
            if !is_initialized {
                out.push(attribute("frozen", "1".to_owned()));
                out.push(attribute("staked", format_i64(now)));
                out.push(attribute("staked_time", format_i64(0)));
                proof {
                    assert(entries(out@) =~= staked_entries(l, now as int));
                }
            }
            Ok(PluginWrite::Update(out))
        },
    }
}

/// What unstaking has gathered after part of the list: the attributes kept,
/// the seconds accumulated, and whether a `staked` attribute was seen.
pub type UnstakeScan = (Seq<Entry>, int, bool);

/// One step of unstaking at `now`, on attribute `e`.
pub open spec fn unstake_step(st: UnstakeScan, e: Entry, now: int) -> Result<UnstakeScan, StakingError> {
    if e.0 == frozen_key() {
        if e.1 == yes() {
            Ok(st)
        } else {
            Err(StakingError::NotStaked)
        }
    } else if e.0 == staked_key() {
        match parsed_i64(e.1) {
            None => Err(StakingError::InvalidTimestamp),
            Some(start) => if !in_i64(now - start) {
                Err(StakingError::Underflow)
            } else if !in_i64(st.1 + (now - start)) {
                Err(StakingError::Overflow)
            } else {
                Ok((st.0.push((staked_key(), decimal(now))), st.1 + (now - start), true))
            },
        }
    } else if e.0 == staked_time_key() {
        match parsed_i64(e.1) {
            None => Err(StakingError::InvalidTimestamp),
            Some(earlier) => if !in_i64(st.1 + earlier) {
                Err(StakingError::Overflow)
            } else {
                Ok((st.0, st.1 + earlier, st.2))
            },
        }
    } else {
        Ok((st.0.push(e), st.1, st.2))
    }
}

/// Unstaking at `now` over the list `l`, front to back; the first refusal stops it.
pub open spec fn unstake_scan(l: Seq<Entry>, now: int) -> Result<UnstakeScan, StakingError>
    decreases l.len(),
{
    if l.len() == 0 {
        Ok((Seq::empty(), 0, false))
    } else {
        match unstake_scan(l.drop_last(), now) {
            Ok(st) => unstake_step(st, l.last(), now),
            Err(e) => Err(e),
        }
    }
}

/// The outcome of unstaking at `now` an asset whose attribute list is `attrs`:
/// the attributes kept, with `frozen` set to "0" and `staked_time` to the
/// accumulated seconds appended.
pub open spec fn unstake_outcome(attrs: Option<Seq<Entry>>, now: int) -> Result<Seq<Entry>, StakingError> {
    match attrs {
        None => Err(StakingError::AttributesNotInitialized),
        Some(l) => match unstake_scan(l, now) {
            Err(e) => Err(e),
            Ok(st) => if !st.2 {
                Err(StakingError::StakingNotInitialized)
            } else {
                Ok(st.0 + seq![(frozen_key(), no()), (staked_time_key(), decimal(st.1))])
            },
        },
    }
}

pub open spec fn list_view(r: Result<Vec<Attribute>, StakingError>) -> Result<Seq<Entry>, StakingError> {
    match r {
        Ok(v) => Ok(entries(v@)),
        Err(e) => Err(e),
    }
}

proof fn lemma_scan_refusal_stands(l: Seq<Entry>, i: int, now: int)
    requires
        0 <= i <= l.len(),
        unstake_scan(l.take(i), now) is Err,
    ensures
        unstake_scan(l, now) == unstake_scan(l.take(i), now),
    decreases l.len(),
{
    if i == l.len() {
        assert(l.take(i) =~= l);
    } else {
        assert(l.drop_last().take(i) =~= l.take(i));
        lemma_scan_refusal_stands(l.drop_last(), i, now);
    }
}

/// Unstakes an asset at time `now`: clears its frozen mark, restarts its
/// `staked` attribute at `now` and adds the seconds since the stake began to
/// `staked_time`. `attributes` is the asset's attribute list, or `None` where
/// it has no attribute plugin.
pub fn unstake(attributes: Option<Vec<Attribute>>, now: i64) -> (r: Result<Vec<Attribute>, StakingError>)
    ensures
        list_view(r) == unstake_outcome(attributes_view(attributes), now as int),
{
    let ghost input = attributes_view(attributes);
    let list = match attributes {
        None => return Err(StakingError::AttributesNotInitialized),
        Some(list) => list,
    };
    let ghost l = entries(list@);
    let mut out: Vec<Attribute> = Vec::new();
    let mut is_initialized = false;
    let mut staked_time: i64 = 0;
    let mut i: usize = 0;
    proof {
        assert(l.take(0) =~= Seq::<Entry>::empty());
        assert(entries(out@) =~= Seq::<Entry>::empty());
    }
    while i < list.len()
        invariant
            l == entries(list@),
            input == Some(l),
            input == attributes_view(attributes),
            0 <= i <= list.len(),
            unstake_scan(l.take(i as int), now as int) == Ok::<UnstakeScan, StakingError>(
                (entries(out@), staked_time as int, is_initialized),
            ),
        decreases list.len() - i,
    {
        let a = &list[i];
        let ghost before = out@;
        let ghost st: UnstakeScan = (entries(out@), staked_time as int, is_initialized);
        proof {
            lemma_keys_differ();
            assert(l[i as int] == a@);
            assert(l.take(i + 1).drop_last() =~= l.take(i as int));
            assert(l.take(i + 1).last() == a@);
        }
        if key_is(&a.key, "frozen") {
            if !key_is(&a.value, "1") {
                proof {
                    lemma_scan_refusal_stands(l, i + 1, now as int);
                }
                return Err(StakingError::NotStaked);
            }
        } else if key_is(&a.key, "staked") {
            let start = match parse_i64(a.value.as_str()) {
                Some(t) => t,
                None => {
                    proof {
                        lemma_scan_refusal_stands(l, i + 1, now as int);
                    }
                    return Err(StakingError::InvalidTimestamp);
                },
            };
            let elapsed = match now.checked_sub(start) {
                Some(d) => d,
                None => {
                    proof {
                        lemma_scan_refusal_stands(l, i + 1, now as int);
                    }
                    return Err(StakingError::Underflow);
                },
            };
            staked_time = match staked_time.checked_add(elapsed) {
                Some(v) => v,
                None => {
                    proof {
                        lemma_scan_refusal_stands(l, i + 1, now as int);
                    }
                    return Err(StakingError::Overflow);
                },
            };
            out.push(attribute("staked", format_i64(now)));
            is_initialized = true;
        } else if key_is(&a.key, "staked_time") {
            let earlier = match parse_i64(a.value.as_str()) {
                Some(t) => t,
                None => {
                    proof {
                        lemma_scan_refusal_stands(l, i + 1, now as int);
                    }
                    return Err(StakingError::InvalidTimestamp);
                },
            };
            staked_time = match staked_time.checked_add(earlier) {
                Some(v) => v,
                None => {
                    proof {
                        lemma_scan_refusal_stands(l, i + 1, now as int);
                    }
                    return Err(StakingError::Overflow);
                },
            };
        } else {
            out.push(a.duplicate());
        }
        proof {
            if out@.len() > before.len() {
                assert(out@ == before.push(out@.last()));
                assert(entries(out@) =~= entries(before).push(out@.last()@));
            } else {
                assert(out@ == before);
            }
        }
        i += 1;
    }
    proof {
        assert(l.take(i as int) =~= l);
    }
    if !is_initialized {
        return Err(StakingError::StakingNotInitialized);
    }
    let ghost kept = entries(out@);
    out.push(attribute("frozen", "0".to_owned()));
    out.push(attribute("staked_time", format_i64(staked_time)));
    proof {
        assert(entries(out@) =~= kept + seq![(frozen_key(), no()), (staked_time_key(), decimal(staked_time as int))]);
    }
    Ok(out)
}

/// Staking an asset that has no attributes at time `start`, then unstaking it
/// at time `end`, leaves `staked` at `end`, the frozen mark at "0", and
/// `end - start` seconds of staking time.
pub proof fn lemma_stake_then_unstake_fresh(start: i64, end: i64)
    requires
        in_i64(end - start),
    ensures
        stake_outcome(None, start as int) == Ok::<(bool, Seq<Entry>), StakingError>((true, fresh_entries(start as int))),
        unstake_outcome(Some(fresh_entries(start as int)), end as int) == Ok::<Seq<Entry>, StakingError>(
            seq![
                (staked_key(), decimal(end as int)),
                (frozen_key(), no()),
                (staked_time_key(), decimal(end - start)),
            ],
        ),
{
    lemma_keys_differ();
    lemma_decimal_round_trip(start as int);
    lemma_decimal_round_trip(0);
    let l = fresh_entries(start as int);
    let now = end as int;
    assert(l.take(1).drop_last() =~= Seq::<Entry>::empty());
    assert(l.take(2).drop_last() =~= l.take(1));
    assert(l.drop_last() =~= l.take(2));
    assert(unstake_scan(Seq::<Entry>::empty(), now) == Ok::<UnstakeScan, StakingError>((Seq::empty(), 0, false)));
    assert(l.take(1).last() == (frozen_key(), yes()));
    assert(l.take(2).last() == (staked_key(), decimal(start as int)));
    assert(unstake_scan(l.take(1), now) == Ok::<UnstakeScan, StakingError>((Seq::empty(), 0, false)));
    let after_staked: Seq<Entry> = seq![(staked_key(), decimal(now))];
    assert(Seq::<Entry>::empty().push((staked_key(), decimal(now))) =~= after_staked);
    assert(unstake_scan(l.take(2), now) == Ok::<UnstakeScan, StakingError>((after_staked, end - start, true)));
    assert(unstake_scan(l, now) == Ok::<UnstakeScan, StakingError>((after_staked, end - start, true)));
    assert(after_staked + seq![(frozen_key(), no()), (staked_time_key(), decimal(end - start))] =~= seq![
        (staked_key(), decimal(now)),
        (frozen_key(), no()),
        (staked_time_key(), decimal(end - start)),
    ]);
}

proof fn lemma_scan_drops_frozen(l: Seq<Entry>, now: int)
    requires
        unstake_scan(l, now) is Ok,
    ensures
        !has_key(unstake_scan(l, now)->Ok_0.0, frozen_key()),
    decreases l.len(),
{
    lemma_keys_differ();
    if l.len() > 0 {
        lemma_scan_drops_frozen(l.drop_last(), now);
        let prev = unstake_scan(l.drop_last(), now)->Ok_0.0;
        let next = unstake_scan(l, now)->Ok_0.0;
        assert forall|i: int| 0 <= i < next.len() implies (#[trigger] next[i]).0 != frozen_key() by {
            if i < prev.len() {
                assert(next[i] == prev[i]);
            }
        }
    }
}

/// An asset that was unstaked can be staked again: the list that a
/// successful unstake writes holds no `frozen` attribute but "0".
pub proof fn lemma_unstaked_can_restake(attrs: Option<Seq<Entry>>, unstaked_at: int, now: int)
    requires
        unstake_outcome(attrs, unstaked_at) is Ok,
    ensures
        stake_outcome(Some(unstake_outcome(attrs, unstaked_at)->Ok_0), now) is Ok,
{
    let l = attrs->Some_0;
    lemma_scan_drops_frozen(l, unstaked_at);
    let st = unstake_scan(l, unstaked_at)->Ok_0;
    let w = unstake_outcome(attrs, unstaked_at)->Ok_0;
    lemma_keys_differ();
    assert forall|i: int| 0 <= i < w.len() && (#[trigger] w[i]).0 == frozen_key() implies w[i].1 == no() by {
        if i < st.0.len() {
            assert(w[i] == st.0[i]);
        }
    }
}

} // verus!
