//! Choosing the log chunk that a local image stands at.

use vstd::prelude::*;

verus! {

/// Which way to travel through the versions of an image.
#[derive(Clone, Copy, Debug, PartialEq, Eq, Structural)]
pub enum TravelDirection {
    Backward,
    Forward,
}

pub struct TravelCmd {
    pub direction: TravelDirection,
    /// Path to the config.
    pub config: String,
    /// Select a start LCN.
    pub image_lcn: Option<u64>,
}

/// Why no log chunk could be chosen.
#[derive(Clone, Copy, Debug, PartialEq, Eq, Structural)]
pub enum TravelError {
    /// No LCN is recorded for the image.
    NoLcn,
    /// Several LCNs are recorded for the image, and none of them was selected.
    Ambiguous,
}

/// The log chunk to start from, and which way to go.
#[derive(Clone, Copy, Debug, PartialEq, Eq, Structural)]
pub struct TravelStart {
    pub lcn: u64,
    pub forward: bool,
}

impl TravelCmd {
    /// What is chosen among the LCNs recorded for an image: the only one;
    /// among several, the selected one if it is among them.
    pub open spec fn choice(&self, lcn_list: Seq<u64>) -> Result<TravelStart, TravelError> {
        let forward = self.direction == TravelDirection::Forward;
        if lcn_list.len() == 0 {
            Err(TravelError::NoLcn)
        } else if lcn_list.len() > 1 {
            if self.image_lcn is Some && lcn_list.contains(self.image_lcn.unwrap()) {
                Ok(TravelStart { lcn: self.image_lcn.unwrap(), forward })
            } else {
                Err(TravelError::Ambiguous)
            }
        } else {
            Ok(TravelStart { lcn: lcn_list[0], forward })
        }
    }

    /// Chooses the LCN to start from among those recorded for the image.
    pub fn run(&self, lcn_list: &Vec<u64>) -> (r: Result<TravelStart, TravelError>)
        ensures
            r == self.choice(lcn_list@),
    {
        let forward = match self.direction {
            TravelDirection::Forward => true,
            TravelDirection::Backward => false,
        };
        if lcn_list.len() == 0 {
            return Err(TravelError::NoLcn);
        }
        if lcn_list.len() > 1 {
            match self.image_lcn {
                Some(wanted) => {
                    let mut i: usize = 0;
                    while i < lcn_list.len()
                        invariant
                            i <= lcn_list@.len(),
                            lcn_list@.len() > 1,
                            self.image_lcn == Some(wanted),
                            forward == (self.direction == TravelDirection::Forward),
                            forall|j: int| 0 <= j < i ==> lcn_list@[j] != wanted,
                        decreases lcn_list.len() - i,
                    {
                        if lcn_list[i] == wanted {
                            assert(lcn_list@.contains(wanted));
                            return Ok(TravelStart { lcn: wanted, forward });
                        }
                        i += 1;
                    }
                    assert(!lcn_list@.contains(wanted));
                    Err(TravelError::Ambiguous)
                },
                None => Err(TravelError::Ambiguous),
            }
        } else {
            Ok(TravelStart { lcn: lcn_list[0], forward })
        }
    }
}

} // verus!
