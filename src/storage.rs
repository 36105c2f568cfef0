//! Where the two append-only snapshot stores read and write. The stores
//! themselves move bytes; which object they touch is decided here.
use vstd::prelude::*;
use crate::naming::{
    decimal, latest_name, latest_position, next_name, next_number, seq_num,
    seq_num_of, NamingSchema, push_decimal, lemma_successor_is_latest, lemma_successor_is_fresh,
};
use crate::text::{push_char, string_views};

verus! {

/// The name that local snapshot files share, before `_<n>`.
pub const FILES_PREFIX: &'static str = "estate_snapshot";

/// Snapshot files `<folder>estate_snapshot_<n>` in a local folder.
pub struct FsSystem {
    pub folder: String,
}

impl FsSystem {
    /// The store in the working directory.
    pub fn new() -> (r: FsSystem)
        ensures
            r.folder@ == "./"@,
    {
        FsSystem { folder: "./".to_string() }
    }

    /// The path shared by the snapshot files, before `_<n>`.
    pub open spec fn base_path(&self) -> Seq<char> {
        self.folder@ + FILES_PREFIX@
    }

    /// The sequence number of a snapshot file.
    pub fn parse_number(&self, file_name: &str) -> (r: u32)
        ensures
            r == seq_num(file_name@),
    {
        seq_num_of(file_name)
    }

    /// The glob pattern that matches the snapshot files.
    pub fn files_pattern(&self) -> (r: String)
        ensures
            r@ == self.base_path() + "_*"@,
    {
        let mut s = self.folder.clone();
        s.append(FILES_PREFIX);
        s.append("_*");
        s
    }

    /// The file to load among the listed snapshot files: the one with the
    /// greatest number, the last of several.
    pub fn latest_file(&self, files: &Vec<String>) -> (r: Option<String>)
        ensures
            match r {
                Some(f) => latest_name(Seq::empty(), string_views(files@)) == Some(f@),
                None => latest_name(Seq::empty(), string_views(files@)) is None,
            },
    {
        let none: Vec<char> = Vec::new();
        match latest_position(files, &none) {
            Some(k) => Some(files[k].clone()),
            None => None,
        }
    }

    /// The file to create next: numbered one past the latest listed file, or
    /// 0. It is not among the listed files. `None` when the number would not
    /// fit a `u32`: such a file would read back as number 0.
    pub fn next_file(&self, files: &Vec<String>) -> (r: Option<String>)
        ensures
            match r {
                Some(f) => {
                    &&& f@ == self.base_path().push('_') + decimal(
                        next_number(Seq::empty(), string_views(files@)),
                    )
                    &&& !string_views(files@).contains(f@)
                },
                None => next_number(Seq::empty(), string_views(files@)) > u32::MAX,
            },
    {
        let none: Vec<char> = Vec::new();
        let n: u64 = match latest_position(files, &none) {
            Some(k) => seq_num_of(files[k].as_str()) as u64 + 1,
            None => 0,
        };
        if n > u32::MAX as u64 {
            return None;
        }
        let mut s = self.folder.clone();
        s.append(FILES_PREFIX);
        push_char(&mut s, '_');
        push_decimal(&mut s, n);
        proof {
            let base = self.base_path();
            assert(Seq::<char>::empty().is_prefix_of(base)) by {
                assert(base.subrange(0, 0) =~= Seq::<char>::empty());
            }
            lemma_successor_is_fresh(Seq::empty(), base, string_views(files@));
        }
        Some(s)
    }
}

/// Snapshot objects `<disk_folder>/<prefix>_<n>` on a remote disk.
pub struct RemoteStore {
    pub disk_folder: String,
    pub schema: NamingSchema,
}

/// The path of object `name` in `folder`.
pub open spec fn object_path(folder: Seq<char>, name: Seq<char>) -> Seq<char> {
    folder.push('/') + name
}

impl RemoteStore {
    pub fn new(disk_folder: String, files_prefix: String) -> (r: RemoteStore)
        ensures
            r.disk_folder@ == disk_folder@,
            r.schema@ == files_prefix@,
    {
        RemoteStore { disk_folder, schema: NamingSchema::new(files_prefix) }
    }

    /// The path of object `name` in the store's folder.
    pub fn path_of(&self, name: &str) -> (r: String)
        ensures
            r@ == object_path(self.disk_folder@, name@),
    {
        let mut s = self.disk_folder.clone();
        push_char(&mut s, '/');
        s.append(name);
        s
    }

    /// The object to write next, given the names listed in the folder: the
    /// name that follows the latest, which is not among them. `None` when its
    /// number would not fit a `u32`.
    pub fn save_path(&self, existing: &mut Vec<String>) -> (r: Option<String>)
        ensures
            final(existing)@ == old(existing)@,
            match r {
                Some(p) => {
                    let name = next_name(self.schema@, string_views(old(existing)@));
                    &&& p@ == object_path(self.disk_folder@, name)
                    &&& !string_views(old(existing)@).contains(name)
                },
                None => next_number(self.schema@, string_views(old(existing)@)) > u32::MAX,
            },
    {
        match self.schema.next(existing) {
            Some(name) => Some(self.path_of(name.as_str())),
            None => None,
        }
    }

    /// The object to read, given the names listed in the folder; `None` when
    /// no listed name starts with the prefix.
    pub fn load_path(&self, existing: &mut Vec<String>) -> (r: Option<String>)
        ensures
            final(existing)@ == old(existing)@,
            match r {
                Some(p) => exists|n: Seq<char>|
                    latest_name(self.schema@, string_views(old(existing)@)) == Some(n) && p@
                        == object_path(self.disk_folder@, n),
                None => latest_name(self.schema@, string_views(old(existing)@)) is None,
            },
    {
        match self.schema.get_latest(existing) {
            Some(name) => Some(self.path_of(name.as_str())),
            None => None,
        }
    }
}

/// Once the file that `next_file` names is listed, `latest_file` picks it: a
/// load after a save reads what the save wrote. The new number must fit a
/// `u32`, else the file's name reads as number 0.
pub proof fn lemma_fs_next_file_is_latest(fs: FsSystem, files: Seq<Seq<char>>)
    requires
        next_number(Seq::empty(), files) <= u32::MAX,
    ensures
        ({
            let written = fs.base_path().push('_') + decimal(next_number(Seq::empty(), files));
            latest_name(Seq::empty(), files.push(written)) == Some(written)
        }),
{
    let base = fs.base_path();
    assert(Seq::<char>::empty().is_prefix_of(base)) by {
        assert(base.subrange(0, 0) =~= Seq::<char>::empty());
    }
    lemma_successor_is_latest(Seq::empty(), base, files);
}

} // verus!
