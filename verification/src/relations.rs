//! Resolving a global tile id to the tileset that owns it and to the
//! tileset-local id.

use vstd::prelude::*;

use crate::data_types::{Gid, TileSet};

verus! {

/// Picks the owner of `gid`: the tileset with the largest `first_gid` not
/// exceeding `gid`; with equal `first_gid`s the last one wins; `None` exactly
/// when every tileset starts above `gid`.
pub fn get_tileset_for_gid<'a>(tilesets: &'a [TileSet], gid: Gid) -> (r: Option<&'a TileSet>)
    ensures
        match r {
            Some(ts) => exists|k: int|
                {
                    &&& 0 <= k < tilesets@.len()
                    &&& *ts == tilesets@[k]
                    &&& (#[trigger] tilesets@[k]).first_gid <= gid.0
                    &&& forall|j: int|
                        0 <= j < tilesets@.len() && (#[trigger] tilesets@[j]).first_gid <= gid.0
                            ==> tilesets@[j].first_gid <= tilesets@[k].first_gid
                    &&& forall|j: int|
                        k < j < tilesets@.len() && (#[trigger] tilesets@[j]).first_gid <= gid.0
                            ==> tilesets@[j].first_gid < tilesets@[k].first_gid
                },
            None => forall|j: int|
                0 <= j < tilesets@.len() ==> (#[trigger] tilesets@[j]).first_gid > gid.0,
        },
{
    let n = tilesets.len();
    let mut best: usize = n;
    let mut i: usize = 0;
    while i < n
        invariant
            i <= n,
            n == tilesets@.len(),
            best <= n,
            best == n ==> forall|j: int|
                0 <= j < i ==> (#[trigger] tilesets@[j]).first_gid > gid.0,
            best < n ==> {
                &&& best < i
                &&& tilesets@[best as int].first_gid <= gid.0
                &&& forall|j: int|
                    0 <= j < i && (#[trigger] tilesets@[j]).first_gid <= gid.0
                        ==> tilesets@[j].first_gid <= tilesets@[best as int].first_gid
                &&& forall|j: int|
                    best < j < i && (#[trigger] tilesets@[j]).first_gid <= gid.0
                        ==> tilesets@[j].first_gid < tilesets@[best as int].first_gid
            },
        decreases n - i,
    {
        let candidate = &tilesets[i];
        if candidate.first_gid <= gid.0 {
            if best == n || candidate.first_gid >= tilesets[best].first_gid {
                best = i;
            }
        }
        i += 1;
    }
    if best == n {
        None
    } else {
        Some(&tilesets[best])
    }
}

/// The tileset-local id of a global id owned by `ts`.
pub fn get_tile_id(ts: &TileSet, gid: Gid) -> (r: u32)
    requires
        ts.first_gid <= gid.0,
    ensures
        r == gid.0 - ts.first_gid,
{
    gid.0 - ts.first_gid
}

} // verus!
