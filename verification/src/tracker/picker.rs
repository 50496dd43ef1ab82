//! The choice of a tracker.

use vstd::prelude::*;

use super::peers::Address;

verus! {

/// How many seeds a tracker has to know.
pub const MIN_SEEDERS: u32 = 5;

/// Whether a tracker has answered that it knows enough seeds.
pub open spec fn is_good(answer: Option<(Vec<Address>, u32)>) -> bool {
    match answer {
        Some((_, seeders)) => seeders >= MIN_SEEDERS,
        None => false,
    }
}

/// Five seeds are enough, however many peers come with them, and no answer is none.
pub proof fn law_five_seeds_are_enough(peers: Vec<Address>, seeders: u32)
    ensures
        is_good(Some((peers, seeders))) <==> seeders >= 5,
        !is_good(None),
{
}

/// Goes through the trackers, one after the other, until one knows enough seeds.
pub struct TrackerPicker {
    /// How many trackers have been tried.
    pub tried: usize,
}

impl TrackerPicker {
    pub fn new() -> (res: Self)
        ensures
            res.tried == 0,
    {
        TrackerPicker { tried: 0 }
    }

    /// The URL of the next tracker, the first of its tier; none, when all have been tried.
    pub fn next_url<'a>(&self, announce_list: &'a Vec<Vec<String>>) -> (res: Option<&'a String>)
        requires
            self.tried < announce_list@.len() ==> announce_list@[self.tried as int]@.len() > 0,
        ensures
            match res {
                Some(url) => self.tried < announce_list@.len() && *url
                    == announce_list@[self.tried as int]@[0],
                None => self.tried >= announce_list@.len(),
            },
    {
        if self.tried >= announce_list.len() {
            return None;
        }
        Some(&announce_list[self.tried][0])
    }

    /// Notes what a tracker has answered, if it has: some peers, and how many seeds it knows. The
    /// peers are those to turn to where there are enough seeds.
    pub fn answered(&mut self, answer: Option<(Vec<Address>, u32)>) -> (peers: Option<Vec<Address>>)
        requires
            old(self).tried < usize::MAX,
        ensures
            final(self).tried == old(self).tried + 1,
            peers is Some <==> is_good(answer),
            peers == match answer {
                Some((peers, seeders)) => if seeders >= MIN_SEEDERS {
                    Some(peers)
                } else {
                    None
                },
                None => None,
            },
    {
        self.tried += 1;
        match answer {
            Some((peers, seeders)) => if seeders >= MIN_SEEDERS {
                Some(peers)
            } else {
                None
            },
            None => None,
        }
    }
}

} // verus!
