//! Change detection by modification time: the filter that admits an entry
//! when it is new or has changed, and the effective time of a directory.

use vstd::prelude::*;
use fxhash::FxHashMap;
use crate::collections::{
    no_records,
    recorded_times,
    time_map_get,
    time_map_insert,
    time_map_new,
};

verus! {

/// What was read of a file or directory, and of what a directory holds.
#[derive(Debug)]
pub struct TimedNode {
    /// Whether the entry is a directory.
    pub is_dir: bool,
    /// When the entry was last modified; `None` where that could not be read.
    pub modified: Option<u128>,
    /// Of a directory: whether its entries could be listed.
    pub listed: bool,
    /// Of a directory: its entries, in the order in which they were listed.
    pub children: Vec<TimedNode>,
}

/// The later of two times.
pub open spec fn later(a: u128, b: u128) -> u128 {
    if b > a {
        b
    } else {
        a
    }
}

/// The effective time of a directory once its entries before `k` were looked
/// at and `latest` is the latest time seen: an entry that cannot be read ends
/// the search without a result, a file modified after `since` ends it with the
/// file's time, and a directory adds its own effective time.
pub open spec fn effective_from(node: TimedNode, since: u128, k: int, latest: u128) -> Option<u128>
    decreases node, node.children@.len() - k,
{
    if k < 0 || k >= node.children@.len() {
        Some(latest)
    } else {
        let child = node.children@[k];
        match child.modified {
            None => None,
            Some(time) => {
                if child.is_dir {
                    match effective_mtime(child, since) {
                        None => None,
                        Some(below) => effective_from(node, since, k + 1, later(latest, below)),
                    }
                } else if time > since {
                    Some(time)
                } else {
                    effective_from(node, since, k + 1, latest)
                }
            },
        }
    }
}

/// The effective modification time of a directory: its own time where that
/// is after `since`, and else the latest time found below it, where the search
/// stops at the first file modified after `since`. `None` where something on
/// the way could not be read.
pub open spec fn effective_mtime(node: TimedNode, since: u128) -> Option<u128>
    decreases node, node.children@.len() + 1,
{
    match node.modified {
        None => None,
        Some(time) => {
            if time > since {
                Some(time)
            } else if !node.listed {
                None
            } else {
                effective_from(node, since, 0, time)
            }
        },
    }
}

/// Nothing among the entries of `node` from `k` on was modified after
/// `since`, at any depth, and all of it could be read.
pub open spec fn quiet_from(node: TimedNode, since: u128, k: int) -> bool
    decreases node, node.children@.len() - k,
{
    if k < 0 || k >= node.children@.len() {
        true
    } else {
        let child = node.children@[k];
        &&& if child.is_dir {
            quiet(child, since)
        } else {
            match child.modified {
                Some(time) => time <= since,
                None => false,
            }
        }
        &&& quiet_from(node, since, k + 1)
    }
}

/// Neither the directory `node` nor anything below it was modified after
/// `since`, and all of it could be read.
pub open spec fn quiet(node: TimedNode, since: u128) -> bool
    decreases node, node.children@.len() + 1,
{
    match node.modified {
        Some(time) => time <= since && node.listed && quiet_from(node, since, 0),
        None => false,
    }
}

proof fn lemma_effective_from(node: TimedNode, since: u128, k: int, latest: u128)
    requires
        0 <= k <= node.children@.len(),
    ensures
        match effective_from(node, since, k, latest) {
            Some(time) => {
                &&& (time >= latest || time > since)
                &&& (time <= since <==> latest <= since && quiet_from(node, since, k))
            },
            None => !quiet_from(node, since, k),
        },
    decreases node, node.children@.len() - k,
{
    if k < node.children@.len() {
        let child = node.children@[k];
        match child.modified {
            None => {
                if child.is_dir {
                    assert(!quiet(child, since));
                }
            },
            Some(time) => {
                if child.is_dir {
                    lemma_effective_mtime(child, since);
                    match effective_mtime(child, since) {
                        None => {},
                        Some(below) => {
                            lemma_effective_from(node, since, k + 1, later(latest, below));
                        },
                    }
                } else if time <= since {
                    lemma_effective_from(node, since, k + 1, latest);
                }
            },
        }
    }
}

/// A change anywhere below is found: the effective time of a directory is no
/// earlier than its own, and it is at most `since` just where neither the
/// directory nor anything below it, at any depth, was modified after `since`.
/// There is no effective time, or one after `since`, where something could not
/// be read.
pub proof fn lemma_effective_mtime(node: TimedNode, since: u128)
    ensures
        match effective_mtime(node, since) {
            Some(time) => {
                &&& node.modified is Some
                &&& time >= node.modified->0
                &&& (time <= since <==> quiet(node, since))
            },
            None => !quiet(node, since),
        },
    decreases node, node.children@.len() + 1,
{
    match node.modified {
        None => {},
        Some(time) => {
            if time <= since && node.listed {
                lemma_effective_from(node, since, 0, time);
            }
        },
    }
}

/// The effective modification time of the directory `node`.
pub fn changed_time_since(node: &TimedNode, since: u128) -> (time: Option<u128>)
    ensures
        time == effective_mtime(*node, since),
    decreases node,
{
    let own: u128 = match node.modified {
        None => {
            return None;
        },
        Some(time) => time,
    };
    if own > since {
        return Some(own);
    }
    if !node.listed {
        return None;
    }
    let mut latest: u128 = own;
    let n: usize = node.children.len();
    let mut k: usize = 0;
    while k < n
        invariant
            n == node.children@.len(),
            0 <= k <= n,
            effective_mtime(*node, since) == effective_from(*node, since, k as int, latest),
        decreases n - k,
    {
        let child = &node.children[k];
        let time: u128 = match child.modified {
            None => {
                return None;
            },
            Some(time) => time,
        };
        if child.is_dir {
            match changed_time_since(child, since) {
                None => {
                    return None;
                },
                Some(below) => {
                    if below > latest {
                        latest = below;
                    }
                },
            }
        } else if time > since {
            return Some(time);
        }
        k = k + 1;
    }
    Some(latest)
}

/// How the current time of an entry is to be measured.
#[derive(Clone, Copy, Debug, PartialEq, Eq, Structural)]
pub enum Probe {
    /// By the modification time of the entry itself.
    Own,
    /// By the effective modification time of the directory, since the time
    /// that was recorded for it.
    Effective { since: u128 },
}

/// The change filter of the walker: it remembers when each entry was last seen
/// modified, and admits an entry that is new or whose time differs.
pub struct ChangeFilter {
    mtimes: FxHashMap<String, u128>,
}

impl ChangeFilter {
    /// The time recorded for each path.
    pub closed spec fn records(&self) -> Map<Seq<char>, u128> {
        recorded_times(self.mtimes)
    }

    /// A filter that has seen nothing.
    pub fn new() -> (filter: Self)
        ensures
            filter.records() == no_records(),
    {
        ChangeFilter { mtimes: time_map_new() }
    }

    /// How the current time of `path` is to be measured: a directory that was
    /// seen before by its effective time since then, anything else by its own.
    pub fn probe(&self, path: &String, is_dir: bool) -> (probe: Probe)
        ensures
            probe == if is_dir && self.records().contains_key(path@) {
                Probe::Effective { since: self.records()[path@] }
            } else {
                Probe::Own
            },
    {
        if !is_dir {
            return Probe::Own;
        }
        match time_map_get(&self.mtimes, path) {
            Some(since) => Probe::Effective { since },
            None => Probe::Own,
        }
    }

    /// Records `current_time` for `path` and tells whether the entry is to be
    /// walked: it is when it was not seen before or its time has changed.
    pub fn observe(&mut self, path: String, current_time: u128) -> (admitted: bool)
        ensures
            final(self).records() == old(self).records().insert(path@, current_time),
            admitted == (!old(self).records().contains_key(path@) || old(self).records()[path@]
                != current_time),
    {
        match time_map_insert(&mut self.mtimes, path, current_time) {
            Some(before) => before != current_time,
            None => true,
        }
    }

    /// Records what was measured for `path` and tells whether the entry is to
    /// be walked. Where measuring failed, `now`, the time of the clock, is
    /// recorded and the entry is walked, whatever was recorded before; else
    /// the measured time is recorded, and the entry is walked when it was not
    /// seen before or its time has changed.
    pub fn observe_measured(&mut self, path: String, measured: Option<u128>, now: u128) -> (admitted:
        bool)
        ensures
            final(self).records() == old(self).records().insert(
                path@,
                match measured {
                    Some(time) => time,
                    None => now,
                },
            ),
            admitted == match measured {
                Some(time) => !old(self).records().contains_key(path@) || old(self).records()[path@]
                    != time,
                None => true,
            },
    {
        match measured {
            Some(time) => self.observe(path, time),
            None => {
                let _ = self.observe(path, now);
                true
            },
        }
    }
}

} // verus!
