//! The resource loader: parses one resource file into a two-level catalog
//! (class name -> pose name -> pose) with typed failures on bad input.
//! Loading is eager and total: the entire document is converted at once,
//! and no partially built catalog is ever returned.
//!
//! The loader itself does no I/O: the host reads the file and passes what
//! it found as a [`ResourceText`].

use vstd::prelude::*;
use crate::hvf::HVF;
use crate::jsonio::{object_entries, parse_json, value_as_object};
use crate::text::{has_hvf_extension, is_hvf_file, str_eq};

verus! {

/// Typed failures of the resource loader: a missing file, a file without
/// the required extension, and malformed content.
#[derive(Debug, PartialEq, Eq, Structural)]
pub enum HvfError {
    InvalidPath,
    InvalidFormat,
    ParseError,
}

/// What the host found at the resource path: no file at all, a file it
/// could not read, or the file's full text.
#[derive(Debug)]
pub enum ResourceText {
    Missing,
    Unreadable,
    Text(String),
}

/// One named pose.
#[derive(Debug)]
pub struct PoseEntry {
    pub name: String,
    pub hvf: HVF,
}

/// One class: a named group of poses.
#[derive(Debug)]
pub struct ClassEntry {
    pub name: String,
    pub poses: Vec<PoseEntry>,
}

/// The catalog built from one resource file; read-only after loading.
#[derive(Debug)]
pub struct HVFLoader {
    pub values: Vec<ClassEntry>,
}

/// Converts every class of the document; any malformed piece fails the
/// whole load.
fn parse_classes(entries: &Vec<(String, serde_json::Value)>) -> (r: Result<
    Vec<ClassEntry>,
    HvfError,
>)
    ensures
        r matches Ok(v) ==> forall|i: int, j: int|
            0 <= i < v@.len() && 0 <= j < (#[trigger] v@[i]).poses@.len() ==> (
            #[trigger] v@[i].poses@[j]).hvf.wf(),
{
    let class_count = entries.len();
    let mut values: Vec<ClassEntry> = Vec::new();
    let mut ci: usize = 0;
    while ci < class_count
        invariant
            ci <= class_count,
            class_count == entries@.len(),
            values@.len() == ci,
            forall|i: int, j: int|
                0 <= i < values@.len() && 0 <= j < (#[trigger] values@[i]).poses@.len() ==> (
                #[trigger] values@[i].poses@[j]).hvf.wf(),
        decreases class_count - ci,
    {
        let class_obj = match value_as_object(&entries[ci].1) {
            Some(o) => o,
            None => {
                return Err(HvfError::ParseError);
            },
        };
        let pose_entries = object_entries(class_obj);
        let poses = match parse_poses(&pose_entries) {
            Ok(p) => p,
            Err(e) => {
                return Err(e);
            },
        };
        let name = entries[ci].0.clone();
        values.push(ClassEntry { name, poses });
        ci += 1;
    }
    Ok(values)
}

/// Converts every pose of one class.
fn parse_poses(pose_entries: &Vec<(String, serde_json::Value)>) -> (r: Result<
    Vec<PoseEntry>,
    HvfError,
>)
    ensures
        r matches Ok(v) ==> forall|j: int| 0 <= j < v@.len() ==> (#[trigger] v@[j]).hvf.wf(),
{
    let pose_count = pose_entries.len();
    let mut poses: Vec<PoseEntry> = Vec::new();
    let mut pi: usize = 0;
    while pi < pose_count
        invariant
            pi <= pose_count,
            pose_count == pose_entries@.len(),
            poses@.len() == pi,
            forall|j: int| 0 <= j < poses@.len() ==> (#[trigger] poses@[j]).hvf.wf(),
        decreases pose_count - pi,
    {
        let arr = match crate::jsonio::value_as_array(&pose_entries[pi].1) {
            Some(a) => a,
            None => {
                return Err(HvfError::ParseError);
            },
        };
        let hvf = match HVF::new(arr) {
            Ok(h) => h,
            Err(_) => {
                return Err(HvfError::ParseError);
            },
        };
        let name = pose_entries[pi].0.clone();
        poses.push(PoseEntry { name, hvf });
        pi += 1;
    }
    Ok(poses)
}

/// The first class entry carrying the given name.
pub open spec fn lookup_class(s: Seq<ClassEntry>, key: Seq<char>) -> Option<ClassEntry>
    decreases s.len(),
{
    if s.len() == 0 {
        None
    } else if s[0].name@ == key {
        Some(s[0])
    } else {
        lookup_class(s.drop_first(), key)
    }
}

/// The first pose entry carrying the given name.
pub open spec fn lookup_pose(s: Seq<PoseEntry>, key: Seq<char>) -> Option<PoseEntry>
    decreases s.len(),
{
    if s.len() == 0 {
        None
    } else if s[0].name@ == key {
        Some(s[0])
    } else {
        lookup_pose(s.drop_first(), key)
    }
}

impl HVFLoader {
    /// Every pose in the catalog is well-formed.
    pub open spec fn wf(self) -> bool {
        forall|i: int, j: int|
            0 <= i < self.values@.len() && 0 <= j < (#[trigger] self.values@[i]).poses@.len()
                ==> (#[trigger] self.values@[i].poses@[j]).hvf.wf()
    }

    /// Loads the catalog. A missing file is `InvalidPath`; a file without
    /// the `.hvf` extension is `InvalidFormat` (checked before the
    /// content is touched); unreadable or malformed content is
    /// `ParseError`. On success every pose in the catalog is well-formed.
    pub fn new(file: &str, content: ResourceText) -> (r: Result<HVFLoader, HvfError>)
        ensures
            (r matches Ok(l) ==> l.wf()),
            (r is Ok) ==> (content is Text && has_hvf_extension(file@)),
            (r == Err::<HVFLoader, HvfError>(HvfError::InvalidPath)) <==> (content is Missing),
            (r == Err::<HVFLoader, HvfError>(HvfError::InvalidFormat)) <==> (!(
            content is Missing) && !has_hvf_extension(file@)),
            (content is Unreadable && has_hvf_extension(file@)) ==> r == Err::<
                HVFLoader,
                HvfError,
            >(HvfError::ParseError),
    {
        let text = match content {
            ResourceText::Missing => {
                return Err(HvfError::InvalidPath);
            },
            ResourceText::Unreadable => {
                if !is_hvf_file(file) {
                    return Err(HvfError::InvalidFormat);
                }
                return Err(HvfError::ParseError);
            },
            ResourceText::Text(t) => t,
        };
        if !is_hvf_file(file) {
            return Err(HvfError::InvalidFormat);
        }
        let data = match parse_json(text.as_str()) {
            Ok(v) => v,
            Err(_) => {
                return Err(HvfError::ParseError);
            },
        };
        let obj = match value_as_object(&data) {
            Some(o) => o,
            None => {
                return Err(HvfError::ParseError);
            },
        };
        let entries = object_entries(obj);
        match parse_classes(&entries) {
            Ok(values) => Ok(HVFLoader { values }),
            Err(_) => Err(HvfError::ParseError),
        }
    }

    /// Looks a pose up by class name, then pose name: two nested lookups
    /// that return absence, never fail, when either key is missing.
    pub fn get(&self, class: &str, id: &str) -> (r: Option<&HVF>)
        ensures
            match lookup_class(self.values@, class@) {
                None => r is None,
                Some(c) => match lookup_pose(c.poses@, id@) {
                    None => r is None,
                    Some(p) => r matches Some(h) && *h == p.hvf,
                },
            },
            self.wf() ==> (r matches Some(h) ==> h.wf()),
    {
        let n = self.values.len();
        let mut ci: usize = 0;
        proof {
            assert(self.values@.skip(0) =~= self.values@);
        }
        while ci < n
            invariant
                ci <= n,
                n == self.values@.len(),
                lookup_class(self.values@, class@) == lookup_class(
                    self.values@.skip(ci as int),
                    class@,
                ),
            decreases n - ci,
        {
            proof {
                assert(self.values@.skip(ci as int)[0] == self.values@[ci as int]);
            }
            if str_eq(self.values[ci].name.as_str(), class) {
                proof {
                    assert(lookup_class(self.values@, class@) == Some(self.values@[ci as int]));
                }
                let entry = &self.values[ci];
                let m = entry.poses.len();
                let mut pi: usize = 0;
                proof {
                    assert(entry.poses@.skip(0) =~= entry.poses@);
                }
                while pi < m
                    invariant
                        pi <= m,
                        m == entry.poses@.len(),
                        entry == &self.values@[ci as int],
                        ci < self.values@.len(),
                        lookup_class(self.values@, class@) == Some(self.values@[ci as int]),
                        lookup_pose(entry.poses@, id@) == lookup_pose(
                            entry.poses@.skip(pi as int),
                            id@,
                        ),
                    decreases m - pi,
                {
                    proof {
                        assert(entry.poses@.skip(pi as int)[0] == entry.poses@[pi as int]);
                    }
                    if str_eq(entry.poses[pi].name.as_str(), id) {
                        proof {
                            assert(lookup_pose(entry.poses@, id@) == Some(
                                entry.poses@[pi as int],
                            ));
                        }
                        return Some(&entry.poses[pi].hvf);
                    }
                    proof {
                        assert(entry.poses@.skip(pi as int).drop_first() =~= entry.poses@.skip(
                            pi as int + 1,
                        ));
                    }
                    pi += 1;
                }
                proof {
                    assert(entry.poses@.skip(m as int) =~= Seq::<PoseEntry>::empty());
                }
                return None;
            }
            proof {
                assert(self.values@.skip(ci as int).drop_first() =~= self.values@.skip(
                    ci as int + 1,
                ));
            }
            ci += 1;
        }
        proof {
            assert(self.values@.skip(n as int) =~= Seq::<ClassEntry>::empty());
        }
        None
    }
}

} // verus!
