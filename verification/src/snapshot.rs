use vstd::prelude::*;

use crate::hashing::{
    blake3_digest, hasher_count, hasher_finalize, hasher_input, hasher_new, hasher_update,
};
use crate::numeral::{digits_val, num_body, parse_u64, parses_to_max};

verus! {

/// A snapshot's identity and content fingerprint: one backup folder,
/// named by its unix timestamp, hashed over the bytes of its files.
#[derive(Clone, Copy, Debug, PartialEq, Eq)]
pub struct BinSet {
    pub timestamp: u64,
    pub size: u64,
    pub document_count: u32,
    pub data_hash: [u8; 32],
}

/// Why a folder yields no snapshot: the folder (or a file in it) could not
/// be read, or its name is not an unsigned decimal integer.
#[derive(Clone, Copy, Debug, PartialEq, Eq, Structural)]
pub enum SnapError {
    Io,
    MalformedSnapshot,
}

/// One backup folder as handed in by the part of the program that reads the
/// disk: its base name, and the contents of its regular files in directory
/// order, or None when reading the folder or one of its files failed.
pub struct FolderData {
    pub name: String,
    pub files: Option<Vec<Vec<u8>>>,
}

/// The folder's base name is a valid unsigned decimal timestamp.
pub open spec fn folder_name_ok(f: FolderData) -> bool {
    parses_to_max(f.name@, u64::MAX as int)
}

/// The folder and all its files could be read.
pub open spec fn folder_readable(f: FolderData) -> bool {
    f.files is Some
}

/// The folder yields a snapshot.
pub open spec fn folder_ok(f: FolderData) -> bool {
    folder_name_ok(f) && folder_readable(f)
}

/// The file contents of a readable folder, as byte sequences.
pub open spec fn folder_files(f: FolderData) -> Seq<Seq<u8>> {
    f.files->0@.map_values(|v: Vec<u8>| v@)
}

/// All the folder's file contents, concatenated in directory order.
pub open spec fn concat_bytes(files: Seq<Seq<u8>>) -> Seq<u8>
    decreases files.len(),
{
    if files.len() == 0 {
        Seq::empty()
    } else {
        concat_bytes(files.drop_last()) + files.last()
    }
}

/// Machine limits under which a folder can be fingerprinted at all: its
/// total bytes are countable in u64 and its files in u32.
pub open spec fn folder_sizes_fit(f: FolderData) -> bool {
    folder_readable(f) ==> {
        &&& concat_bytes(folder_files(f)).len() <= u64::MAX
        &&& folder_files(f).len() <= u32::MAX
    }
}

/// b is the snapshot of folder f: the timestamp is the folder's name, the
/// size and document count total the folder's files, and the hash is the
/// blake3 digest of all file bytes in directory order.
pub open spec fn snap_of_folder(b: BinSet, f: FolderData) -> bool {
    &&& b.timestamp as int == digits_val(num_body(f.name@))
    &&& b.size as int == concat_bytes(folder_files(f)).len()
    &&& b.document_count as int == folder_files(f).len()
    &&& b.data_hash@ == blake3_digest(concat_bytes(folder_files(f)))
}

impl BinSet {
    /// Fingerprints one backup folder: parses the name as a timestamp, then
    /// streams every file's bytes through one blake3 hasher. Returns a fully
    /// populated snapshot or no snapshot at all.
    pub fn from_folder(folder: &FolderData) -> (r: Result<BinSet, SnapError>)
        requires
            folder_sizes_fit(*folder),
        ensures
            r is Ok <==> folder_ok(*folder),
            r is Ok ==> snap_of_folder(r->Ok_0, *folder),
            !folder_name_ok(*folder) ==> r == Result::<BinSet, SnapError>::Err(
                SnapError::MalformedSnapshot,
            ),
            folder_name_ok(*folder) && !folder_readable(*folder) ==> r == Result::<
                BinSet,
                SnapError,
            >::Err(SnapError::Io),
    {
        let timestamp: u64 = match parse_u64(folder.name.as_str()) {
            Some(v) => v,
            None => {
                return Err(SnapError::MalformedSnapshot);
            },
        };
        let files: &Vec<Vec<u8>> = match &folder.files {
            Some(fs) => fs,
            None => {
                return Err(SnapError::Io);
            },
        };
        let ghost contents: Seq<Seq<u8>> = folder_files(*folder);
        let mut hasher = hasher_new();
        let mut i: usize = 0;
        while i < files.len()
            invariant
                i <= files.len(),
                contents == folder_files(*folder),
                contents.len() == files@.len(),
                forall|j: int| 0 <= j < files@.len() ==> contents[j] == files@[j]@,
                hasher_input(hasher) == concat_bytes(contents.take(i as int)),
            decreases files.len() - i,
        {
            hasher_update(&mut hasher, files[i].as_slice());
            proof {
                let cur = contents.take(i + 1 as int);
                assert(cur.drop_last() =~= contents.take(i as int));
                assert(cur.last() == contents[i as int]);
            }
            i = i + 1;
        }
        proof {
            assert(contents.take(contents.len() as int) =~= contents);
        }
        let size: u64 = hasher_count(&hasher);
        let digest: [u8; 32] = hasher_finalize(&hasher);
        let document_count: u32 = files.len() as u32;
        Ok(BinSet { timestamp, size, document_count, data_hash: digest })
    }
}

/// The folders that yield snapshots, in scan order.
pub open spec fn spec_valid_folders(fs: Seq<FolderData>) -> Seq<FolderData> {
    fs.filter(|f: FolderData| folder_ok(f))
}

/// Fingerprints every folder of a scan, silently skipping each one that
/// fails (unreadable, or no timestamp for a name): one bad folder never
/// aborts the scan, and the survivors keep their scan order.
pub fn build_snapshots(folders: &Vec<FolderData>) -> (snaps: Vec<BinSet>)
    requires
        forall|i: int| 0 <= i < folders@.len() ==> folder_sizes_fit(#[trigger] folders@[i]),
    ensures
        snaps@.len() == spec_valid_folders(folders@).len(),
        forall|i: int|
            0 <= i < snaps@.len() ==> snap_of_folder(
                #[trigger] snaps@[i],
                spec_valid_folders(folders@)[i],
            ),
{
    let mut snaps: Vec<BinSet> = Vec::new();
    let mut i: usize = 0;
    while i < folders.len()
        invariant
            i <= folders@.len(),
            forall|j: int| 0 <= j < folders@.len() ==> folder_sizes_fit(#[trigger] folders@[j]),
            snaps@.len() == spec_valid_folders(folders@.take(i as int)).len(),
            forall|j: int|
                0 <= j < snaps@.len() ==> snap_of_folder(
                    #[trigger] snaps@[j],
                    spec_valid_folders(folders@.take(i as int))[j],
                ),
        decreases folders@.len() - i,
    {
        let ghost pre = folders@.take(i as int);
        let ghost cur = folders@.take(i + 1 as int);
        proof {
            reveal(Seq::filter);
            assert(cur.drop_last() =~= pre);
            assert(cur.last() == folders@[i as int]);
        }
        match BinSet::from_folder(&folders[i]) {
            Ok(b) => {
                snaps.push(b);
            },
            Err(_) => {},
        }
        i = i + 1;
    }
    proof {
        assert(folders@.take(folders@.len() as int) =~= folders@);
    }
    snaps
}

} // verus!
