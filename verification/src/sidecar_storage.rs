//! Where the sidecar files of an image live, which files belong to it, and what is
//! done to them when the image is copied, moved or removed.

use vstd::prelude::*;

use crate::paths::names_same_path;
use crate::paths::same_path;
use crate::text::fold_path;
use crate::text::folded;
use crate::text::has_prefix;
use crate::text::has_suffix;
use crate::text::insert_text;
use crate::text::is_ascending;
use crate::text::last_position;
use crate::text::strip_prefix;
use crate::text::strip_suffix;
use crate::text::texts;

verus! {

/// The BLAKE3 hash of some bytes in lowercase hexadecimal.
pub uninterp spec fn blake3_hex(bytes: Seq<u8>) -> Seq<char>;

/// A digit of a lowercase hexadecimal number.
pub open spec fn is_small_hex_digit(character: char) -> bool {
    '0' <= character <= '9' || 'a' <= character <= 'f'
}

/// Calls `blake3::hash` and `Hash::to_hex` on its result. The hash has 32 bytes, and
/// each is written as two lowercase hexadecimal digits. Which digits they are is
/// named and not stated.
#[verifier::external_body]
fn hash_to_hex(bytes: &[u8]) -> (digits: String)
    ensures
        digits@ == blake3_hex(bytes@),
        digits@.len() == 64,
        forall|i: int| 0 <= i < 64 ==> is_small_hex_digit(#[trigger] digits@[i]),
{
    blake3::hash(bytes).to_hex().to_string()
}

/// An image file: its absolute path, and the path split into the directory and the
/// file name.
pub struct ImagePath {
    pub path: String,
    pub directory: String,
    pub name: String,
}

/// What is known of the private sidecar directory.
pub struct SidecarStorage {
    /// The directory of all private sidecars, once it is known.
    pub root: Option<String>,
    /// The photo directories whose sidecars have been taken over.
    pub migrated: Vec<String>,
    /// The paths are those of Windows: a backslash separates parts too, and the directory of
    /// an image does not depend on the case of letters.
    pub windows: bool,
}

/// A directory and the name of something in it.
pub open spec fn joined(directory: Seq<char>, name: Seq<char>) -> Seq<char> {
    if directory.len() == 0 || directory.last() == '/' {
        directory + name
    } else {
        directory + seq!['/'] + name
    }
}

fn join(directory: &str, name: &str) -> (path: String)
    ensures
        path@ == joined(directory@, name@),
{
    let count: usize = directory.unicode_len();
    let mut path: String = directory.to_owned();
    if count > 0 && directory.get_char(count - 1) != '/' {
        path.push('/');
        assert(path@ =~= directory@ + seq!['/']);
    }
    path.append(name);
    path
}

impl SidecarStorage {
    pub open spec fn has_root(self) -> bool {
        self.root is Some
    }

    /// The private directory.
    pub open spec fn root_path(self) -> Seq<char> {
        self.root->0@
    }

    /// A photo directory has been taken over.
    pub open spec fn is_migrated(self, directory: Seq<char>) -> bool {
        exists|i: int| 0 <= i < self.migrated@.len() && self.notes(i, directory)
    }

    /// The directory stands at this place of the list, in one spelling or another.
    pub open spec fn notes(self, i: int, directory: Seq<char>) -> bool {
        same_path(self.migrated@[i]@, directory, self.windows)
    }

    /// No directory is noted twice.
    pub open spec fn well_formed(self) -> bool {
        forall|i: int, j: int|
            0 <= i < j < self.migrated@.len() ==> !same_path(
                #[trigger] self.migrated@[i]@,
                #[trigger] self.migrated@[j]@,
                self.windows,
            )
    }

    /// A storage whose directory is not known yet.
    pub fn new(windows: bool) -> (storage: Self)
        ensures
            storage.well_formed(),
            !storage.has_root(),
            storage.windows == windows,
            forall|directory: Seq<char>| !(#[trigger] storage.is_migrated(directory)),
    {
        SidecarStorage { root: None, migrated: Vec::new(), windows }
    }

    /// Notes that the sidecars of a photo directory are taken over, and says whether
    /// this is the first time.
    pub fn begin_migration(&mut self, directory: &str) -> (first: bool)
        requires
            old(self).well_formed(),
        ensures
            final(self).well_formed(),
            final(self).root == old(self).root,
            final(self).windows == old(self).windows,
            first == !old(self).is_migrated(directory@),
            forall|other: Seq<char>| #[trigger]
                final(self).is_migrated(other) == (old(self).is_migrated(other) || same_path(
                    other,
                    directory@,
                    old(self).windows,
                )),
    {
        let ghost before = *self;
        let mut i: usize = 0;
        while i < self.migrated.len()
            invariant
                i <= self.migrated@.len(),
                *self == before,
                before.well_formed(),
                before == *old(self),
                forall|j: int| 0 <= j < i ==> !(#[trigger] self.notes(j, directory@)),
            decreases self.migrated@.len() - i,
        {
            if names_same_path(self.migrated[i].as_str(), directory, self.windows) {
                proof {
                    assert(before.notes(i as int, directory@));
                    assert forall|other: Seq<char>| same_path(
                        other,
                        directory@,
                        before.windows,
                    ) implies #[trigger] before.is_migrated(other) by {
                        assert(before.notes(i as int, other));
                    }
                }
                return false;
            }
            i += 1;
        }
        self.migrated.push(directory.to_owned());
        proof {
            let count = before.migrated@.len() as int;
            assert forall|other: Seq<char>| #[trigger] self.is_migrated(other) == (
            before.is_migrated(other) || same_path(other, directory@, before.windows)) by {
                if before.is_migrated(other) {
                    let k = choose|k: int| 0 <= k < count && before.notes(k, other);
                    assert(self.notes(k, other));
                }
                if same_path(other, directory@, before.windows) {
                    assert(self.notes(count, other));
                }
                if self.is_migrated(other) {
                    let k = choose|k: int| 0 <= k < self.migrated@.len() && self.notes(k, other);
                    if k < count {
                        assert(before.notes(k, other));
                    }
                }
            }
            assert forall|a: int, b: int| 0 <= a < b < self.migrated@.len() implies !same_path(
                #[trigger] self.migrated@[a]@,
                #[trigger] self.migrated@[b]@,
                self.windows,
            ) by {
                assert(!before.notes(a, directory@));
                if b < count {
                    assert(self.migrated@[a] == before.migrated@[a]);
                    assert(self.migrated@[b] == before.migrated@[b]);
                }
            }
        }
        true
    }

    /// Forgets a photo directory that could not be read, so that it is tried again.
    pub fn abandon_migration(&mut self, directory: &str)
        requires
            old(self).well_formed(),
        ensures
            final(self).well_formed(),
            final(self).root == old(self).root,
            final(self).windows == old(self).windows,
            forall|other: Seq<char>| #[trigger]
                final(self).is_migrated(other) == (old(self).is_migrated(other) && !same_path(
                    other,
                    directory@,
                    old(self).windows,
                )),
    {
        let ghost before = *self;
        let mut i: usize = 0;
        while i < self.migrated.len()
            invariant
                i <= self.migrated@.len(),
                *self == before,
                before.well_formed(),
                before == *old(self),
                forall|j: int| 0 <= j < i ==> !(#[trigger] self.notes(j, directory@)),
            decreases self.migrated@.len() - i,
        {
            if names_same_path(self.migrated[i].as_str(), directory, self.windows) {
                self.migrated.remove(i);
                proof {
                    assert(before.notes(i as int, directory@));
                    assert forall|other: Seq<char>| #[trigger] self.is_migrated(other) == (
                    before.is_migrated(other) && !same_path(
                        other,
                        directory@,
                        before.windows,
                    )) by {
                        if before.is_migrated(other) && !same_path(
                            other,
                            directory@,
                            before.windows,
                        ) {
                            let k = choose|k: int|
                                0 <= k < before.migrated@.len() && before.notes(k, other);
                            if k < i {
                                assert(self.notes(k, other));
                            } else {
                                assert(self.notes(k - 1, other));
                            }
                        }
                        if self.is_migrated(other) {
                            let k = choose|k: int|
                                0 <= k < self.migrated@.len() && self.notes(k, other);
                            let source = if k < i {
                                k
                            } else {
                                k + 1
                            };
                            assert(before.notes(source, other));
                            let (own, found) = (before.migrated@[source]@, before.migrated@[i as int]@);
                            assert(!same_path(own, found, before.windows));
                        }
                    }
                }
                return ;
            }
            i += 1;
        }
        proof {
            assert forall|other: Seq<char>| #[trigger] before.is_migrated(other) implies !same_path(
                other,
                directory@,
                before.windows,
            ) by {
                let k = choose|k: int| 0 <= k < before.migrated@.len() && before.notes(k, other);
                assert(!before.notes(k, directory@));
            }
        }
    }
}

/// The directory of all private sidecars below the data directory of the application.
pub fn sidecar_root(app_data_dir: &str) -> (root: String)
    ensures
        root@ == joined(app_data_dir@, "sidecars-v1"@),
{
    join(app_data_dir, "sidecars-v1")
}

/// Sets the private directory. Once it is set, only the same directory is accepted, in
/// whatever spelling.
pub fn initialize(storage: &mut SidecarStorage, root: String) -> (result: Result<(), String>)
    ensures
        final(storage).migrated == old(storage).migrated,
        final(storage).windows == old(storage).windows,
        !old(storage).has_root() ==> result is Ok && final(storage).root == Some(root),
        old(storage).has_root() ==> final(storage).root == old(storage).root,
        old(storage).has_root() ==> (result is Ok <==> same_path(
            old(storage).root_path(),
            root@,
            old(storage).windows,
        )),
        result matches Err(message) ==> message@
            == "Sidecar storage was initialized with a different directory"@,
{
    let known: Option<bool> = match &storage.root {
        None => None,
        Some(existing) => Some(
            names_same_path(existing.as_str(), root.as_str(), storage.windows),
        ),
    };
    match known {
        None => {
            storage.root = Some(root);
            Ok(())
        },
        Some(same) => if same {
            Ok(())
        } else {
            Err("Sidecar storage was initialized with a different directory".to_owned())
        },
    }
}

pub fn is_initialized(storage: &SidecarStorage) -> (initialized: bool)
    ensures
        initialized == storage.has_root(),
{
    storage.root.is_some()
}

/// The text under which the directory of an image is found.
pub open spec fn image_identity(path: Seq<char>, ignores_case: bool) -> Seq<char> {
    path.map_values(|c: char| folded(c, ignores_case))
}

/// The private directory of an image: the hash of its identity, under the first two
/// digits of the hash.
pub open spec fn storage_directory(
    root: Seq<char>,
    path: Seq<char>,
    ignores_case: bool,
) -> Seq<char> {
    hashed_directory(
        root,
        blake3_hex(vstd::utf8::encode_utf8(image_identity(path, ignores_case))),
    )
}

/// The directory for a hash under a root.
pub open spec fn hashed_directory(root: Seq<char>, digits: Seq<char>) -> Seq<char> {
    joined(joined(root, digits.take(2)), digits)
}

/// The directory for a hash: under the first two digits of the hash.
pub fn directory_for_hash(root: &str, digits: &str) -> (directory: String)
    requires
        digits@.len() >= 2,
    ensures
        directory@ == hashed_directory(root@, digits@),
{
    let shard: &str = digits.substring_char(0, 2);
    assert(shard@ =~= digits@.take(2));
    let outer: String = join(root, shard);
    join(outer.as_str(), digits)
}

pub fn image_storage_directory(storage: &SidecarStorage, image: &ImagePath) -> (directory: String)
    requires
        storage.has_root(),
    ensures
        directory@ == storage_directory(
            storage.root_path(),
            image.path@,
            storage.windows,
        ),
{
    let identity: String = fold_path(image.path.as_str(), storage.windows);
    let digits: String = hash_to_hex(identity.as_str().as_bytes());
    match &storage.root {
        Some(root) => directory_for_hash(root.as_str(), digits.as_str()),
        None => String::new(),
    }
}

/// Spellings of a path that differ in the kind of slash, and in the case of ASCII
/// letters where the system ignores it, share one directory.
pub proof fn law_equal_identities_share_a_directory(
    root: Seq<char>,
    a: Seq<char>,
    b: Seq<char>,
    ignores_case: bool,
)
    requires
        a.len() == b.len(),
        forall|i: int|
            0 <= i < a.len() ==> folded(#[trigger] a[i], ignores_case) == folded(
                b[i],
                ignores_case,
            ),
    ensures
        storage_directory(root, a, ignores_case) == storage_directory(root, b, ignores_case),
{
    assert(image_identity(a, ignores_case) =~= image_identity(b, ignores_case));
}

/// A hexadecimal digit in either case.
pub open spec fn is_hex_digit(character: char) -> bool {
    '0' <= character <= '9' || 'a' <= character <= 'f' || 'A' <= character <= 'F'
}

/// The identifier of a virtual copy: six hexadecimal digits.
pub open spec fn is_copy_id(text: Seq<char>) -> bool {
    text.len() == 6 && forall|i: int| 0 <= i < 6 ==> is_hex_digit(#[trigger] text[i])
}

fn valid_copy_id(text: &str) -> (valid: bool)
    ensures
        valid == is_copy_id(text@),
{
    if text.unicode_len() != 6 {
        return false;
    }
    let mut i: usize = 0;
    while i < 6
        invariant
            text@.len() == 6,
            i <= 6,
            forall|j: int| 0 <= j < i ==> is_hex_digit(#[trigger] text@[j]),
        decreases 6 - i,
    {
        let c: char = text.get_char(i);
        let digit: bool = ('0' <= c && c <= '9') || ('a' <= c && c <= 'f') || ('A' <= c && c
            <= 'F');
        if !digit {
            assert(!is_hex_digit(text@[i as int]));
            return false;
        }
        i += 1;
    }
    true
}

/// The text of an optional string.
pub open spec fn text_of(text: Option<&str>) -> Option<Seq<char>> {
    match text {
        Some(inner) => Some(inner@),
        None => None,
    }
}

/// The name of a sidecar that lies next to its photo.
pub open spec fn legacy_name(image_name: Seq<char>, copy_id: Option<Seq<char>>) -> Seq<char> {
    match copy_id {
        Some(id) => image_name + "."@ + id + ".rrdata"@,
        None => image_name + ".rrdata"@,
    }
}

/// The path of a sidecar that lies next to its photo.
pub fn legacy_sidecar_path(image: &ImagePath, copy_id: Option<&str>) -> (path: String)
    ensures
        path@ == joined(image.directory@, legacy_name(image.name@, text_of(copy_id))),
{
    let mut name: String = image.name.as_str().to_owned();
    if let Some(id) = copy_id {
        name.append(".");
        name.append(id);
    }
    name.append(".rrdata");
    join(image.directory.as_str(), name.as_str())
}

/// The path of cached metadata that lies next to its photo.
pub fn legacy_rrexif_path(image: &ImagePath) -> (path: String)
    ensures
        path@ == joined(image.directory@, image.name@ + ".rrexif"@),
{
    let mut name: String = image.name.as_str().to_owned();
    name.append(".rrexif");
    join(image.directory.as_str(), name.as_str())
}

/// The name of a private sidecar. An identifier that is not made of six hexadecimal
/// digits is replaced by a hash of it.
pub open spec fn sidecar_name(copy_id: Option<Seq<char>>) -> Seq<char> {
    match copy_id {
        None => "primary.rrdata"@,
        Some(id) => if is_copy_id(id) {
            id + ".rrdata"@
        } else {
            hashed_copy_name(blake3_hex(vstd::utf8::encode_utf8(id)))
        },
    }
}

/// The sidecar of a copy that is named by a hash of its identifier.
pub open spec fn hashed_copy_name(digits: Seq<char>) -> Seq<char> {
    "copy-"@ + digits.take(12) + ".rrdata"@
}

/// The sidecar of a copy that is named by a hash: by its first twelve digits.
pub fn copy_name_for_hash(digits: &str) -> (name: String)
    requires
        digits@.len() >= 12,
    ensures
        name@ == hashed_copy_name(digits@),
{
    let mut name: String = "copy-".to_owned();
    let short: &str = digits.substring_char(0, 12);
    assert(short@ =~= digits@.take(12));
    name.append(short);
    name.append(".rrdata");
    name
}

fn make_sidecar_name(copy_id: Option<&str>) -> (name: String)
    ensures
        name@ == sidecar_name(text_of(copy_id)),
{
    match copy_id {
        None => "primary.rrdata".to_owned(),
        Some(id) => {
            if valid_copy_id(id) {
                let mut name: String = id.to_owned();
                name.append(".rrdata");
                name
            } else {
                let digits: String = hash_to_hex(id.as_bytes());
                copy_name_for_hash(digits.as_str())
            }
        },
    }
}

/// The path of a private sidecar.
pub open spec fn sidecar_location(
    storage: SidecarStorage,
    path: Seq<char>,
    copy_id: Option<Seq<char>>,
) -> Seq<char> {
    joined(
        storage_directory(storage.root_path(), path, storage.windows),
        sidecar_name(copy_id),
    )
}

pub fn sidecar_path(storage: &SidecarStorage, image: &ImagePath, copy_id: Option<&str>) -> (path:
    String)
    requires
        storage.has_root(),
    ensures
        path@ == sidecar_location(*storage, image.path@, text_of(copy_id)),
{
    let directory: String = image_storage_directory(storage, image);
    let name: String = make_sidecar_name(copy_id);
    join(directory.as_str(), name.as_str())
}

pub fn primary_sidecar_path(storage: &SidecarStorage, image: &ImagePath) -> (path: String)
    requires
        storage.has_root(),
    ensures
        path@ == sidecar_location(*storage, image.path@, None),
{
    sidecar_path(storage, image, None)
}

/// The primary sidecar and the sidecars of virtual copies never share a name, and
/// neither do the sidecars of two copies.
pub proof fn law_sidecar_names_differ(a: Seq<char>, b: Seq<char>)
    requires
        is_copy_id(a),
        is_copy_id(b),
    ensures
        sidecar_name(Some(a)) != sidecar_name(None),
        sidecar_name(Some(a)) == sidecar_name(Some(b)) ==> a == b,
{
    reveal_strlit("primary.rrdata");
    reveal_strlit(".rrdata");
    assert(sidecar_name(Some(a)).len() == 13);
    assert(sidecar_name(None).len() == 14);
    if sidecar_name(Some(a)) == sidecar_name(Some(b)) {
        assert(a =~= sidecar_name(Some(a)).take(6));
        assert(b =~= sidecar_name(Some(b)).take(6));
    }
}

/// What happens to a sidecar that lies next to its photo.
#[derive(Debug, Clone, Copy, PartialEq, Eq, Structural)]
pub enum MigrationStep {
    /// There is no such sidecar.
    Nothing,
    /// It is copied to the private place, and removed if that succeeds.
    CopyThenRemove,
    /// The private sidecar is at least as recent: it is only removed.
    Remove,
}

/// Decides what happens to a sidecar next to its photo, given whether it and the
/// private sidecar are there and when they were last changed, where that is known.
pub fn migration_step(
    legacy_is_file: bool,
    legacy_modified: Option<i128>,
    private_modified: Option<i128>,
    private_exists: bool,
) -> (step: MigrationStep)
    ensures
        step == MigrationStep::Nothing <==> !legacy_is_file,
        legacy_is_file ==> (step == MigrationStep::CopyThenRemove <==> match (
            legacy_modified,
            private_modified,
        ) {
            (Some(legacy), Some(private)) => legacy > private,
            (Some(_), None) => true,
            (None, _) => !private_exists,
        }),
{
    if !legacy_is_file {
        return MigrationStep::Nothing;
    }
    let newer: bool = match (legacy_modified, private_modified) {
        (Some(legacy), Some(private)) => legacy > private,
        (Some(_), None) => true,
        (None, _) => !private_exists,
    };
    if newer {
        MigrationStep::CopyThenRemove
    } else {
        MigrationStep::Remove
    }
}

/// Whether the sidecar next to the photo is removed after its step: the step did not
/// fail, and the private sidecar is there.
pub fn removes_legacy(step: MigrationStep, copied: bool, private_is_file: bool) -> (removes: bool)
    ensures
        removes == (private_is_file && (step == MigrationStep::Remove || (step
            == MigrationStep::CopyThenRemove && copied))),
{
    match step {
        MigrationStep::Nothing => false,
        MigrationStep::CopyThenRemove => copied && private_is_file,
        MigrationStep::Remove => private_is_file,
    }
}

/// The image and the copy that a sidecar next to photos belongs to.
pub struct LegacySidecar {
    pub image_name: String,
    pub copy_id: Option<String>,
}

/// The position of the dot in front of the copy identifier that ends a text.
pub open spec fn id_dot(base: Seq<char>) -> int {
    base.len() - 7
}

/// The text ends with a dot and a copy identifier.
pub open spec fn ends_with_copy_id(base: Seq<char>) -> bool {
    base.len() >= 7 && base[id_dot(base)] == '.' && is_copy_id(base.skip(id_dot(base) + 1))
}

/// Reads the name of a file next to photos. `None` if it is no sidecar.
pub fn parse_legacy_name(filename: &str) -> (parsed: Option<LegacySidecar>)
    ensures
        parsed is Some <==> has_suffix(filename@, ".rrdata"@),
        parsed matches Some(sidecar) ==> ({
            let base = filename@.take(filename@.len() - 7);
            if ends_with_copy_id(base) {
                &&& sidecar.image_name@ == base.take(id_dot(base))
                &&& sidecar.copy_id is Some
                &&& sidecar.copy_id->0@ == base.skip(id_dot(base) + 1)
            } else {
                &&& sidecar.image_name@ == base
                &&& sidecar.copy_id is None
            }
        }),
{
    proof {
        reveal_strlit(".rrdata");
    }
    let base: String = match strip_suffix(filename, ".rrdata") {
        Some(front) => front,
        None => {
            return None;
        },
    };
    let total: usize = base.as_str().unicode_len();
    match last_position(base.as_str(), '.') {
        Some(dot) => {
            let id: &str = base.as_str().substring_char(dot + 1, total);
            assert(id@ =~= base@.skip(dot + 1));
            if valid_copy_id(id) {
                let image_name: &str = base.as_str().substring_char(0, dot);
                assert(image_name@ =~= base@.take(dot as int));
                return Some(
                    LegacySidecar {
                        image_name: image_name.to_owned(),
                        copy_id: Some(id.to_owned()),
                    },
                );
            }
            proof {
                if ends_with_copy_id(base@) {
                    lemma_id_follows_last_dot(base@, dot as int);
                }
            }
        },
        None => {
            assert(!ends_with_copy_id(base@));
        },
    }
    Some(LegacySidecar { image_name: base, copy_id: None })
}

/// The last dot of a text that ends with a dot and an identifier is that dot.
proof fn lemma_id_follows_last_dot(base: Seq<char>, dot: int)
    requires
        ends_with_copy_id(base),
        0 <= dot < base.len(),
        base[dot] == '.',
        forall|i: int| dot < i < base.len() ==> #[trigger] base[i] != '.',
    ensures
        dot == id_dot(base),
{
    let first = id_dot(base) + 1;
    if dot >= first {
        assert(base.skip(first)[dot - first] == base[dot]);
        assert(is_hex_digit(base.skip(first)[dot - first]));
    } else if dot < id_dot(base) {
        assert(base[id_dot(base)] != '.');
    }
}

/// Reading the name of a sidecar next to its photo gives back the photo and the
/// copy, unless the name of the photo itself ends like one of a copy.
pub proof fn law_legacy_names_can_be_read(image_name: Seq<char>, copy_id: Option<Seq<char>>)
    requires
        copy_id matches Some(id) ==> is_copy_id(id),
        copy_id is None ==> !ends_with_copy_id(image_name),
    ensures
        ({
            let name = legacy_name(image_name, copy_id);
            let base = name.take(name.len() - 7);
            &&& has_suffix(name, ".rrdata"@)
            &&& copy_id is Some <==> ends_with_copy_id(base)
            &&& match copy_id {
                Some(id) => base.take(id_dot(base)) == image_name && base.skip(id_dot(base) + 1)
                    == id,
                None => base == image_name,
            }
        }),
{
    reveal_strlit(".rrdata");
    reveal_strlit(".");
    let name = legacy_name(image_name, copy_id);
    let base = name.take(name.len() - 7);
    assert(name.skip(name.len() - 7) =~= ".rrdata"@);
    match copy_id {
        Some(id) => {
            assert(base =~= image_name + "."@ + id);
            assert(base.take(id_dot(base)) =~= image_name);
            assert(base.skip(id_dot(base) + 1) =~= id);
        },
        None => {
            assert(base =~= image_name);
        },
    }
}

/// A file of this name is the sidecar of this copy.
pub open spec fn names_copy(filename: Seq<char>, id: Seq<char>) -> bool {
    is_copy_id(id) && filename == id + ".rrdata"@
}

/// The virtual copies of an image, given the names of the files in its private
/// directory: in ascending order, each once.
pub fn virtual_copy_ids(filenames: &Vec<String>) -> (ids: Vec<String>)
    ensures
        is_ascending(texts(ids@)),
        forall|id: Seq<char>| #[trigger]
            texts(ids@).contains(id) <==> exists|i: int|
                0 <= i < filenames@.len() && names_copy(#[trigger] filenames@[i]@, id),
{
    proof {
        reveal_strlit(".rrdata");
    }
    let mut ids: Vec<String> = Vec::new();
    let mut i: usize = 0;
    while i < filenames.len()
        invariant
            i <= filenames@.len(),
            ".rrdata"@.len() == 7,
            is_ascending(texts(ids@)),
            forall|id: Seq<char>| #[trigger]
                texts(ids@).contains(id) <==> exists|j: int|
                    0 <= j < i && names_copy(#[trigger] filenames@[j]@, id),
        decreases filenames@.len() - i,
    {
        let ghost before = texts(ids@);
        let ghost name = filenames@[i as int]@;
        let ghost mut added: Option<Seq<char>> = None;
        if let Some(front) = strip_suffix(filenames[i].as_str(), ".rrdata") {
            assert(name =~= front@ + ".rrdata"@) by {
                assert(name =~= name.take(name.len() - 7) + name.skip(name.len() - 7));
            }
            if valid_copy_id(front.as_str()) {
                proof {
                    added = Some(front@);
                }
                insert_text(&mut ids, front);
            }
        }
        proof {
            assert forall|id: Seq<char>| #[trigger] texts(ids@).contains(id) <==> exists|j: int|
                0 <= j < i + 1 && names_copy(#[trigger] filenames@[j]@, id) by {
                assert(names_copy(name, id) <==> added == Some(id)) by {
                    if names_copy(name, id) {
                        assert(name.take(name.len() - 7) =~= id);
                        assert(name.skip(name.len() - 7) =~= ".rrdata"@);
                    }
                }
                if before.contains(id) {
                    let j = choose|j: int|
                        0 <= j < i && names_copy(#[trigger] filenames@[j]@, id);
                    assert(names_copy(filenames@[j]@, id));
                }
                if added == Some(id) {
                    assert(names_copy(filenames@[i as int]@, id));
                }
                if exists|j: int| 0 <= j < i + 1 && names_copy(#[trigger] filenames@[j]@, id) {
                    let j = choose|j: int|
                        0 <= j < i + 1 && names_copy(#[trigger] filenames@[j]@, id);
                    if j < i {
                        assert(before.contains(id));
                    }
                }
            }
        }
        i += 1;
    }
    ids
}

/// A sidecar file of an image.
pub struct SidecarEntry {
    pub copy_id: Option<String>,
    pub path: String,
}

/// The text of the copy that an entry belongs to.
pub open spec fn entry_id(entry: SidecarEntry) -> Option<Seq<char>> {
    match entry.copy_id {
        Some(id) => Some(id@),
        None => None,
    }
}

/// The copies that have a sidecar: the image itself first, then its virtual copies
/// in their order.
pub open spec fn present_copies(
    primary_is_file: bool,
    ids: Seq<Seq<char>>,
    copy_is_file: Seq<bool>,
) -> Seq<Option<Seq<char>>>
    decreases ids.len(),
{
    if ids.len() == 0 {
        if primary_is_file {
            seq![None]
        } else {
            Seq::empty()
        }
    } else {
        let earlier = present_copies(primary_is_file, ids.drop_last(), copy_is_file);
        if copy_is_file[ids.len() - 1] {
            earlier.push(Some(ids.last()))
        } else {
            earlier
        }
    }
}

/// The sidecars of an image, given which of them are files.
pub fn sidecar_entries(
    storage: &SidecarStorage,
    image: &ImagePath,
    primary_is_file: bool,
    copy_ids: &Vec<String>,
    copy_is_file: &Vec<bool>,
) -> (entries: Vec<SidecarEntry>)
    requires
        storage.has_root(),
        copy_ids@.len() == copy_is_file@.len(),
    ensures
        ({
            let copies = present_copies(primary_is_file, texts(copy_ids@), copy_is_file@);
            &&& entries@.len() == copies.len()
            &&& forall|i: int|
                0 <= i < entries@.len() ==> entry_id(#[trigger] entries@[i]) == copies[i]
                    && entries@[i].path@ == sidecar_location(*storage, image.path@, copies[i])
        }),
{
    let mut entries: Vec<SidecarEntry> = Vec::new();
    if primary_is_file {
        entries.push(SidecarEntry { copy_id: None, path: primary_sidecar_path(storage, image) });
    }
    let mut i: usize = 0;
    assert(texts(copy_ids@).take(0) =~= Seq::<Seq<char>>::empty());
    while i < copy_ids.len()
        invariant
            i <= copy_ids@.len(),
            storage.has_root(),
            copy_ids@.len() == copy_is_file@.len(),
            ({
                let copies = present_copies(
                    primary_is_file,
                    texts(copy_ids@).take(i as int),
                    copy_is_file@,
                );
                &&& entries@.len() == copies.len()
                &&& forall|j: int|
                    0 <= j < entries@.len() ==> entry_id(#[trigger] entries@[j]) == copies[j]
                        && entries@[j].path@ == sidecar_location(*storage, image.path@, copies[j])
            }),
        decreases copy_ids@.len() - i,
    {
        proof {
            let longer = texts(copy_ids@).take(i + 1);
            assert(longer.drop_last() =~= texts(copy_ids@).take(i as int));
            assert(longer.last() == copy_ids@[i as int]@);
        }
        if copy_is_file[i] {
            let id: String = copy_ids[i].clone();
            let path: String = sidecar_path(storage, image, Some(id.as_str()));
            entries.push(SidecarEntry { copy_id: Some(id), path });
        }
        i += 1;
    }
    assert(texts(copy_ids@).take(copy_ids@.len() as int) =~= texts(copy_ids@));
    entries
}

/// A file and the place that it is copied to.
pub struct CopyStep {
    pub source: String,
    pub destination: String,
}

/// The copies to make so that one image has the sidecars of another: each sidecar
/// goes to the place of the same copy of the other image.
pub fn copy_sidecars(
    storage: &SidecarStorage,
    entries: &Vec<SidecarEntry>,
    destination_image: &ImagePath,
) -> (steps: Vec<CopyStep>)
    requires
        storage.has_root(),
    ensures
        steps@.len() == entries@.len(),
        forall|i: int|
            0 <= i < steps@.len() ==> (#[trigger] steps@[i]).source@ == entries@[i].path@
                && steps@[i].destination@ == sidecar_location(
                *storage,
                destination_image.path@,
                entry_id(entries@[i]),
            ),
{
    let mut steps: Vec<CopyStep> = Vec::new();
    let mut i: usize = 0;
    while i < entries.len()
        invariant
            i <= entries@.len(),
            storage.has_root(),
            steps@.len() == i,
            forall|j: int|
                0 <= j < i ==> (#[trigger] steps@[j]).source@ == entries@[j].path@
                    && steps@[j].destination@ == sidecar_location(
                    *storage,
                    destination_image.path@,
                    entry_id(entries@[j]),
                ),
        decreases entries@.len() - i,
    {
        let destination: String = match &entries[i].copy_id {
            Some(id) => sidecar_path(storage, destination_image, Some(id.as_str())),
            None => primary_sidecar_path(storage, destination_image),
        };
        steps.push(CopyStep { source: entries[i].path.clone(), destination });
        i += 1;
    }
    steps
}

/// The copies to make before the sidecars of the source are removed. `None` where
/// source and destination are the same image: nothing is moved.
pub fn move_sidecars(
    storage: &SidecarStorage,
    source_image: &ImagePath,
    entries: &Vec<SidecarEntry>,
    destination_image: &ImagePath,
) -> (steps: Option<Vec<CopyStep>>)
    requires
        storage.has_root(),
    ensures
        steps is None <==> same_path(source_image.path@, destination_image.path@, storage.windows),
        steps matches Some(copies) ==> copies@.len() == entries@.len() && forall|i: int|
            0 <= i < copies@.len() ==> (#[trigger] copies@[i]).source@ == entries@[i].path@
                && copies@[i].destination@ == sidecar_location(
                *storage,
                destination_image.path@,
                entry_id(entries@[i]),
            ),
{
    if names_same_path(
        source_image.path.as_str(),
        destination_image.path.as_str(),
        storage.windows,
    ) {
        None
    } else {
        Some(copy_sidecars(storage, entries, destination_image))
    }
}

/// A file of this name next to the photo is the sidecar of one of its copies.
pub open spec fn is_legacy_copy_of(filename: Seq<char>, image_name: Seq<char>) -> bool {
    let front = image_name + "."@;
    let id = filename.skip(front.len() as int);
    has_prefix(filename, front) && has_suffix(id, ".rrdata"@) && is_copy_id(id.take(id.len() - 7))
}

/// Whether a file next to a photo is the sidecar of one of its copies.
pub fn belongs_to_copy(filename: &str, image: &ImagePath) -> (belongs: bool)
    ensures
        belongs == is_legacy_copy_of(filename@, image.name@),
{
    proof {
        reveal_strlit(".rrdata");
    }
    let mut front: String = image.name.as_str().to_owned();
    front.append(".");
    match strip_prefix(filename, front.as_str()) {
        None => false,
        Some(rest) => match strip_suffix(rest.as_str(), ".rrdata") {
            None => false,
            Some(id) => valid_copy_id(id.as_str()),
        },
    }
}

/// The sidecar of a copy next to its photo is recognised as one, and the sidecar of
/// the photo itself is not taken for one.
pub proof fn law_legacy_copies_are_recognised(image_name: Seq<char>, id: Seq<char>)
    requires
        is_copy_id(id),
    ensures
        is_legacy_copy_of(legacy_name(image_name, Some(id)), image_name),
        !is_legacy_copy_of(legacy_name(image_name, None), image_name),
{
    reveal_strlit(".rrdata");
    reveal_strlit(".");
    let front = image_name + "."@;
    let name = legacy_name(image_name, Some(id));
    assert(name.take(front.len() as int) =~= front);
    assert(name.skip(front.len() as int) =~= id + ".rrdata"@);
    assert((id + ".rrdata"@).skip(6) =~= ".rrdata"@);
    assert((id + ".rrdata"@).take(6) =~= id);
    let plain = legacy_name(image_name, None);
    assert(plain.skip(front.len() as int).len() == 6);
}

/// Is this path one of the sidecars next to a photo?
pub open spec fn is_legacy_path_of(
    path: Seq<char>,
    directory: Seq<char>,
    image_name: Seq<char>,
    listing: Seq<Seq<char>>,
) -> bool {
    ||| path == joined(directory, legacy_name(image_name, None))
    ||| path == joined(directory, image_name + ".rrexif"@)
    ||| exists|i: int|
        0 <= i < listing.len() && is_legacy_copy_of(#[trigger] listing[i], image_name) && path
            == joined(directory, listing[i])
}

/// The sidecars that may lie next to a photo, given the names of the files there.
pub fn legacy_sidecar_paths(image: &ImagePath, listing: &Vec<String>) -> (paths: Vec<String>)
    ensures
        paths@.len() >= 2,
        paths@[0]@ == joined(image.directory@, legacy_name(image.name@, None)),
        paths@[1]@ == joined(image.directory@, image.name@ + ".rrexif"@),
        forall|path: Seq<char>| #[trigger]
            texts(paths@).contains(path) <==> is_legacy_path_of(
                path,
                image.directory@,
                image.name@,
                texts(listing@),
            ),
{
    let mut paths: Vec<String> = Vec::new();
    paths.push(legacy_sidecar_path(image, None));
    paths.push(legacy_rrexif_path(image));
    let ghost names = texts(listing@);
    proof {
        let two = texts(paths@);
        assert(two[0] == joined(image.directory@, legacy_name(image.name@, None)));
        assert(two[1] == joined(image.directory@, image.name@ + ".rrexif"@));
        assert forall|path: Seq<char>| #[trigger] two.contains(path) <==> is_legacy_path_of(
            path,
            image.directory@,
            image.name@,
            names.take(0),
        ) by {
            if path == two[0] {
                assert(two.contains(path));
            }
            if path == two[1] {
                assert(two.contains(path));
            }
        }
    }
    let mut i: usize = 0;
    while i < listing.len()
        invariant
            i <= listing@.len(),
            names == texts(listing@),
            paths@.len() >= 2,
            paths@[0]@ == joined(image.directory@, legacy_name(image.name@, None)),
            paths@[1]@ == joined(image.directory@, image.name@ + ".rrexif"@),
            forall|path: Seq<char>| #[trigger]
                texts(paths@).contains(path) <==> is_legacy_path_of(
                    path,
                    image.directory@,
                    image.name@,
                    names.take(i as int),
                ),
        decreases listing@.len() - i,
    {
        let ghost before = texts(paths@);
        let belongs: bool = belongs_to_copy(listing[i].as_str(), image);
        if belongs {
            paths.push(join(image.directory.as_str(), listing[i].as_str()));
        }
        proof {
            let after = texts(paths@);
            let added = joined(image.directory@, names[i as int]);
            assert(names[i as int] == listing@[i as int]@);
            assert(after =~= if belongs {
                before.push(added)
            } else {
                before
            });
            assert forall|path: Seq<char>| #[trigger] after.contains(path) <==> is_legacy_path_of(
                path,
                image.directory@,
                image.name@,
                names.take(i + 1),
            ) by {
                let (shorter, longer) = (names.take(i as int), names.take(i + 1));
                assert(after.contains(path) <==> before.contains(path) || (belongs && path
                    == added)) by {
                    if before.contains(path) {
                        let k = choose|k: int| 0 <= k < before.len() && before[k] == path;
                        assert(after[k] == path);
                    }
                    if belongs {
                        assert(after[before.len() as int] == added);
                    }
                }
                if exists|k: int|
                    0 <= k < shorter.len() && is_legacy_copy_of(
                        #[trigger] shorter[k],
                        image.name@,
                    ) && path == joined(image.directory@, shorter[k]) {
                    let k = choose|k: int|
                        0 <= k < shorter.len() && is_legacy_copy_of(
                            #[trigger] shorter[k],
                            image.name@,
                        ) && path == joined(image.directory@, shorter[k]);
                    assert(longer[k] == shorter[k]);
                }
                if belongs {
                    assert(longer[i as int] == names[i as int]);
                }
                if exists|k: int|
                    0 <= k < longer.len() && is_legacy_copy_of(#[trigger] longer[k], image.name@)
                        && path == joined(image.directory@, longer[k]) {
                    let k = choose|k: int|
                        0 <= k < longer.len() && is_legacy_copy_of(
                            #[trigger] longer[k],
                            image.name@,
                        ) && path == joined(image.directory@, longer[k]);
                    if k < i {
                        assert(shorter[k] == longer[k]);
                    }
                }
            }
        }
        i += 1;
    }
    assert(names.take(listing@.len() as int) =~= names);
    paths
}

/// The texts whose flag is set, in order.
pub open spec fn picked(list: Seq<Seq<char>>, flags: Seq<bool>) -> Seq<Seq<char>>
    decreases flags.len(),
{
    if flags.len() == 0 {
        Seq::empty()
    } else if flags.last() {
        picked(list, flags.drop_last()).push(list[flags.len() - 1])
    } else {
        picked(list, flags.drop_last())
    }
}

/// The files that are there, out of those that might be, in order.
fn files_present(paths: &Vec<String>, is_file: &Vec<bool>) -> (present: Vec<String>)
    requires
        paths@.len() == is_file@.len(),
    ensures
        texts(present@) == picked(texts(paths@), is_file@),
        present@.len() <= paths@.len(),
{
    let mut present: Vec<String> = Vec::new();
    let mut i: usize = 0;
    assert(is_file@.take(0) =~= Seq::<bool>::empty());
    assert(texts(present@) =~= Seq::<Seq<char>>::empty());
    while i < paths.len()
        invariant
            i <= paths@.len(),
            paths@.len() == is_file@.len(),
            present@.len() <= i,
            texts(present@) == picked(texts(paths@), is_file@.take(i as int)),
        decreases paths@.len() - i,
    {
        let ghost before = texts(present@);
        assert(is_file@.take(i + 1).drop_last() =~= is_file@.take(i as int));
        if is_file[i] {
            present.push(paths[i].clone());
            assert(texts(present@) =~= before.push(paths@[i as int]@));
        }
        i += 1;
    }
    assert(is_file@.take(is_file@.len() as int) =~= is_file@);
    present
}

/// What is removed with an image besides its private directory, and how many files
/// go in all.
pub struct RemovalPlan {
    pub legacy_files: Vec<String>,
    pub removed_count: usize,
}

/// The sidecars next to a photo that are removed with it, given the number of files
/// in its private directory and which of the candidates are there.
pub fn remove_sidecars(
    private_files: usize,
    legacy_paths: &Vec<String>,
    is_file: &Vec<bool>,
) -> (plan: RemovalPlan)
    requires
        legacy_paths@.len() == is_file@.len(),
        private_files + legacy_paths@.len() <= usize::MAX,
    ensures
        texts(plan.legacy_files@) == picked(texts(legacy_paths@), is_file@),
        plan.removed_count == private_files + picked(texts(legacy_paths@), is_file@).len(),
{
    let legacy_files: Vec<String> = files_present(legacy_paths, is_file);
    assert(texts(legacy_files@).len() == legacy_files@.len());
    let removed_count: usize = private_files + legacy_files.len();
    RemovalPlan { legacy_files, removed_count }
}

/// Which of some paths are files, given the files on a disk.
pub open spec fn files_on(disk: Set<Seq<char>>, paths: Seq<Seq<char>>) -> Seq<bool> {
    Seq::new(paths.len(), |i: int| disk.contains(paths[i]))
}

proof fn lemma_picked(paths: Seq<Seq<char>>, is_file: Seq<bool>)
    ensures
        forall|i: int|
            0 <= i < is_file.len() && #[trigger] is_file[i] ==> picked(paths, is_file).contains(
                paths[i],
            ),
        (forall|i: int| 0 <= i < is_file.len() ==> !(#[trigger] is_file[i])) ==> picked(
            paths,
            is_file,
        ).len() == 0,
    decreases is_file.len(),
{
    if is_file.len() > 0 {
        let flags = is_file.drop_last();
        lemma_picked(paths, flags);
        assert forall|i: int| 0 <= i < is_file.len() && #[trigger] is_file[i] implies picked(
            paths,
            is_file,
        ).contains(paths[i]) by {
            let (earlier, all) = (picked(paths, flags), picked(paths, is_file));
            if i < flags.len() {
                assert(flags[i]);
                let k = choose|k: int| 0 <= k < earlier.len() && earlier[k] == paths[i];
                assert(all[k] == paths[i]);
            } else {
                assert(all.last() == paths[i]);
            }
        }
        if forall|i: int| 0 <= i < is_file.len() ==> !(#[trigger] is_file[i]) {
            assert(!is_file[is_file.len() - 1]);
            assert forall|i: int| 0 <= i < flags.len() implies !(#[trigger] flags[i]) by {
                assert(!is_file[i]);
            }
        }
    }
}

/// Once the sidecars of an image are removed, and nobody adds any, none is left next to the
/// photo and a second removal finds nothing.
pub proof fn law_nothing_is_left_to_remove(
    directory: Seq<char>,
    image_name: Seq<char>,
    listing: Seq<Seq<char>>,
    paths: Seq<Seq<char>>,
    later_listing: Seq<Seq<char>>,
    later_paths: Seq<Seq<char>>,
    disk: Set<Seq<char>>,
    left: Set<Seq<char>>,
)
    requires
        forall|path: Seq<char>| #[trigger]
            paths.contains(path) <==> is_legacy_path_of(path, directory, image_name, listing),
        forall|path: Seq<char>| #[trigger]
            later_paths.contains(path) <==> is_legacy_path_of(
                path,
                directory,
                image_name,
                later_listing,
            ),
        forall|i: int|
            0 <= i < later_listing.len() ==> listing.contains(#[trigger] later_listing[i]),
        left == disk.difference(picked(paths, files_on(disk, paths)).to_set()),
    ensures
        forall|path: Seq<char>| #[trigger]
            is_legacy_path_of(path, directory, image_name, listing) ==> !left.contains(path),
        picked(later_paths, files_on(left, later_paths)).len() == 0,
{
    lemma_picked(paths, files_on(disk, paths));
    lemma_picked(later_paths, files_on(left, later_paths));
    assert forall|path: Seq<char>| #[trigger]
        is_legacy_path_of(path, directory, image_name, listing) implies !left.contains(path) by {
        assert(paths.contains(path));
        let i = choose|i: int| 0 <= i < paths.len() && paths[i] == path;
        if disk.contains(path) {
            assert(files_on(disk, paths)[i]);
            assert(picked(paths, files_on(disk, paths)).contains(paths[i]));
        }
    }
    assert forall|i: int| 0 <= i < later_paths.len() implies !(#[trigger] files_on(
        left,
        later_paths,
    )[i]) by {
        let path = later_paths[i];
        assert(later_paths.contains(path));
        if exists|k: int|
            0 <= k < later_listing.len() && is_legacy_copy_of(
                #[trigger] later_listing[k],
                image_name,
            ) && path == joined(directory, later_listing[k]) {
            let k = choose|k: int|
                0 <= k < later_listing.len() && is_legacy_copy_of(
                    #[trigger] later_listing[k],
                    image_name,
                ) && path == joined(directory, later_listing[k]);
            assert(listing.contains(later_listing[k]));
            let n = choose|n: int| 0 <= n < listing.len() && listing[n] == later_listing[k];
            assert(is_legacy_copy_of(listing[n], image_name));
        }
        assert(is_legacy_path_of(path, directory, image_name, listing));
    }
}

/// An image none of whose sidecars is a file has no entries.
pub proof fn law_entries_are_files(ids: Seq<Seq<char>>, copy_is_file: Seq<bool>)
    requires
        forall|i: int| 0 <= i < ids.len() ==> !(#[trigger] copy_is_file[i]),
    ensures
        present_copies(false, ids, copy_is_file).len() == 0,
    decreases ids.len(),
{
    if ids.len() > 0 {
        law_entries_are_files(ids.drop_last(), copy_is_file);
    }
}

/// The files to remove with a virtual copy, given whether its private sidecar and the
/// one next to the photo are there. The copy was there if any file is removed.
pub fn remove_virtual_copy(
    storage: &SidecarStorage,
    image: &ImagePath,
    copy_id: &str,
    private_is_file: bool,
    legacy_is_file: bool,
) -> (files: Vec<String>)
    requires
        storage.has_root(),
    ensures
        texts(files@) == (if private_is_file {
            seq![sidecar_location(*storage, image.path@, Some(copy_id@))]
        } else {
            Seq::empty()
        }) + (if legacy_is_file {
            seq![joined(image.directory@, legacy_name(image.name@, Some(copy_id@)))]
        } else {
            Seq::empty()
        }),
{
    let mut files: Vec<String> = Vec::new();
    if private_is_file {
        files.push(sidecar_path(storage, image, Some(copy_id)));
    }
    if legacy_is_file {
        files.push(legacy_sidecar_path(image, Some(copy_id)));
    }
    files
}

/// A name in a directory: the directory, one slash, and the name; a directory that ends with a
/// slash has it already, and no directory needs none.
pub proof fn law_joined_paths_have_one_slash(directory: Seq<char>, name: Seq<char>)
    ensures
        has_suffix(joined(directory, name), name),
        has_prefix(joined(directory, name), directory),
        directory.len() == 0 ==> joined(directory, name) == name,
        directory.len() > 0 ==> {
            let before = joined(directory, name).len() - name.len();
            &&& before == if directory.last() == '/' {
                directory.len() as int
            } else {
                directory.len() as int + 1
            }
            &&& joined(directory, name)[before - 1] == '/'
        },
{
    let path = joined(directory, name);
    assert(path.skip(path.len() - name.len()) =~= name);
    assert(path.take(directory.len() as int) =~= directory);
}

/// The directory for a hash lies under the root, in a directory of its first two digits: different
/// hashes of one length have different directories.
pub proof fn law_hashes_have_their_own_directories(root: Seq<char>, a: Seq<char>, b: Seq<char>)
    requires
        a.len() == b.len(),
        2 <= a.len(),
        hashed_directory(root, a) == hashed_directory(root, b),
    ensures
        a == b,
        has_prefix(hashed_directory(root, a), root),
        has_suffix(hashed_directory(root, a), a),
{
    law_joined_paths_have_one_slash(root, a.take(2));
    law_joined_paths_have_one_slash(joined(root, a.take(2)), a);
    law_joined_paths_have_one_slash(root, b.take(2));
    law_joined_paths_have_one_slash(joined(root, b.take(2)), b);
    let path = hashed_directory(root, a);
    let inner = joined(root, a.take(2));
    assert(path.take(root.len() as int) =~= inner.take(root.len() as int)) by {
        assert(path.take(inner.len() as int) == inner);
        assert forall|i: int| 0 <= i < root.len() implies path[i] == inner[i] by {
            assert(path.take(inner.len() as int)[i] == inner[i]);
        }
    }
}

/// Every sidecar that is a file has an entry, and no other has one; the image itself comes first.
pub proof fn law_files_have_entries(
    primary_is_file: bool,
    ids: Seq<Seq<char>>,
    copy_is_file: Seq<bool>,
    i: int,
)
    requires
        0 <= i < ids.len(),
    ensures
        primary_is_file <==> present_copies(primary_is_file, ids, copy_is_file).contains(None),
        primary_is_file ==> present_copies(primary_is_file, ids, copy_is_file)[0] is None,
        copy_is_file[i] ==> present_copies(primary_is_file, ids, copy_is_file).contains(
            Some(ids[i]),
        ),
        forall|k: int|
            #![trigger present_copies(primary_is_file, ids, copy_is_file)[k]]
            0 <= k < present_copies(primary_is_file, ids, copy_is_file).len() && present_copies(
                primary_is_file,
                ids,
                copy_is_file,
            )[k] is Some ==> exists|j: int|
                0 <= j < ids.len() && copy_is_file[j] && present_copies(
                    primary_is_file,
                    ids,
                    copy_is_file,
                )[k] == Some(#[trigger] ids[j]),
{
    lemma_present_copies(primary_is_file, ids, copy_is_file);
    let copies = present_copies(primary_is_file, ids, copy_is_file);
    if copy_is_file[i] {
        lemma_copy_is_present(primary_is_file, ids, copy_is_file, i);
    }
    if primary_is_file {
        assert(copies[0] is None);
    }
    if copies.contains(None) && !primary_is_file {
        let k = choose|k: int| 0 <= k < copies.len() && copies[k] == None::<Seq<char>>;
        assert(copies[k] is Some);
    }
}

proof fn lemma_present_copies(
    primary_is_file: bool,
    ids: Seq<Seq<char>>,
    copy_is_file: Seq<bool>,
)
    ensures
        primary_is_file ==> present_copies(primary_is_file, ids, copy_is_file).len() > 0
            && present_copies(primary_is_file, ids, copy_is_file)[0] is None,
        forall|k: int|
            #![trigger present_copies(primary_is_file, ids, copy_is_file)[k]]
            0 <= k < present_copies(primary_is_file, ids, copy_is_file).len() ==> if primary_is_file
                && k == 0 {
                present_copies(primary_is_file, ids, copy_is_file)[k] is None
            } else {
                exists|j: int|
                    0 <= j < ids.len() && copy_is_file[j] && present_copies(
                        primary_is_file,
                        ids,
                        copy_is_file,
                    )[k] == Some(#[trigger] ids[j])
            },
    decreases ids.len(),
{
    if ids.len() > 0 {
        let rest = ids.drop_last();
        lemma_present_copies(primary_is_file, rest, copy_is_file);
        let before = present_copies(primary_is_file, rest, copy_is_file);
        let after = present_copies(primary_is_file, ids, copy_is_file);
        assert forall|k: int| #![trigger after[k]] 0 <= k < after.len() implies if primary_is_file
            && k == 0 {
            after[k] is None
        } else {
            exists|j: int|
                0 <= j < ids.len() && copy_is_file[j] && after[k] == Some(#[trigger] ids[j])
        } by {
            if k < before.len() {
                assert(after[k] == before[k]);
                if !(primary_is_file && k == 0) {
                    let j = choose|j: int|
                        0 <= j < rest.len() && copy_is_file[j] && before[k] == Some(
                            #[trigger] rest[j],
                        );
                    assert(ids[j] == rest[j]);
                }
            } else {
                assert(ids[ids.len() - 1] == ids.last());
            }
        }
    }
}

proof fn lemma_copy_is_present(
    primary_is_file: bool,
    ids: Seq<Seq<char>>,
    copy_is_file: Seq<bool>,
    i: int,
)
    requires
        0 <= i < ids.len(),
        copy_is_file[i],
    ensures
        present_copies(primary_is_file, ids, copy_is_file).contains(Some(ids[i])),
    decreases ids.len(),
{
    let rest = ids.drop_last();
    let before = present_copies(primary_is_file, rest, copy_is_file);
    let after = present_copies(primary_is_file, ids, copy_is_file);
    if i == ids.len() - 1 {
        assert(after[before.len() as int] == Some(ids[i]));
    } else {
        lemma_copy_is_present(primary_is_file, rest, copy_is_file, i);
        let k = choose|k: int| 0 <= k < before.len() && before[k] == Some(rest[i]);
        assert(after[k] == before[k]);
        assert(rest[i] == ids[i]);
    }
}

/// The text is one of those whose flag is set.
pub open spec fn is_flagged(list: Seq<Seq<char>>, flags: Seq<bool>, text: Seq<char>) -> bool {
    exists|j: int| 0 <= j < flags.len() && flags[j] && text == #[trigger] list[j]
}

/// What is picked are exactly the texts whose flag is set.
pub proof fn law_only_flagged_texts_are_picked(list: Seq<Seq<char>>, flags: Seq<bool>, i: int)
    requires
        list.len() == flags.len(),
        0 <= i < list.len(),
    ensures
        flags[i] ==> picked(list, flags).contains(list[i]),
        picked(list, flags).len() <= list.len(),
        forall|k: int|
            #![trigger picked(list, flags)[k]]
            0 <= k < picked(list, flags).len() ==> is_flagged(list, flags, picked(list, flags)[k]),
{
    lemma_picked_texts(list, flags);
    if flags[i] {
        lemma_flagged_is_picked(list, flags, i);
    }
}

proof fn lemma_picked_texts(list: Seq<Seq<char>>, flags: Seq<bool>)
    requires
        flags.len() <= list.len(),
    ensures
        picked(list, flags).len() <= flags.len(),
        forall|k: int|
            #![trigger picked(list, flags)[k]]
            0 <= k < picked(list, flags).len() ==> is_flagged(list, flags, picked(list, flags)[k]),
    decreases flags.len(),
{
    if flags.len() > 0 {
        let rest = flags.drop_last();
        lemma_picked_texts(list, rest);
        let before = picked(list, rest);
        let after = picked(list, flags);
        assert forall|k: int| #![trigger after[k]] 0 <= k < after.len() implies is_flagged(
            list,
            flags,
            after[k],
        ) by {
            if k < before.len() {
                assert(after[k] == before[k]);
                assert(is_flagged(list, rest, before[k]));
                let j = choose|j: int|
                    0 <= j < rest.len() && rest[j] && before[k] == #[trigger] list[j];
                assert(flags[j] && after[k] == list[j]);
            } else {
                let j = flags.len() - 1;
                assert(after[k] == list[j]);
                assert(flags[j]);
            }
        }
    } else {
        assert(picked(list, flags).len() == 0);
    }
}

proof fn lemma_flagged_is_picked(list: Seq<Seq<char>>, flags: Seq<bool>, i: int)
    requires
        0 <= i < flags.len(),
        flags[i],
    ensures
        picked(list, flags).contains(list[i]),
    decreases flags.len(),
{
    let rest = flags.drop_last();
    let before = picked(list, rest);
    let after = picked(list, flags);
    if i == flags.len() - 1 {
        assert(after[before.len() as int] == list[i]);
    } else {
        lemma_flagged_is_picked(list, rest, i);
        let k = choose|k: int| 0 <= k < before.len() && before[k] == list[i];
        assert(after[k] == list[i]);
    }
}

/// The copy that a file name belongs to is the name without its ending, if that is six
/// hexadecimal digits; a file belongs to one copy at most.
pub proof fn law_names_belong_to_one_copy(filename: Seq<char>, id: Seq<char>, other: Seq<char>)
    requires
        names_copy(filename, id),
    ensures
        id.len() == 6,
        filename.len() == 13,
        has_prefix(filename, id),
        has_suffix(filename, ".rrdata"@),
        filename == sidecar_name(Some(id)),
        names_copy(filename, other) ==> other == id,
{
    reveal_strlit(".rrdata");
    assert(filename.subrange(0, 6) =~= id);
    assert(filename.subrange(6, 13) =~= ".rrdata"@);
    if names_copy(filename, other) {
        assert(filename.subrange(0, 6) =~= other);
    }
}

/// A copy that is named by a hash has the first twelve digits of it in its name: hashes that
/// differ there give different names.
pub proof fn law_hashed_names_hold_twelve_digits(a: Seq<char>, b: Seq<char>, i: int)
    requires
        12 <= a.len(),
        12 <= b.len(),
        0 <= i < 12,
    ensures
        hashed_copy_name(a).len() == 24,
        hashed_copy_name(a)[5 + i] == a[i],
        a[i] != b[i] ==> hashed_copy_name(a) != hashed_copy_name(b),
        has_prefix(hashed_copy_name(a), "copy-"@),
        has_suffix(hashed_copy_name(a), ".rrdata"@),
{
    reveal_strlit("copy-");
    reveal_strlit(".rrdata");
    assert(hashed_copy_name(a)[5 + i] == a[i]);
    assert(hashed_copy_name(b)[5 + i] == b[i]);
    assert(hashed_copy_name(a).subrange(0, 5) =~= "copy-"@);
    assert(hashed_copy_name(a).subrange(17, 24) =~= ".rrdata"@);
}

/// The sidecars of an image lie in its own directory, under names that tell its copies apart.
pub proof fn law_copies_of_an_image_have_their_own_sidecars(
    storage: SidecarStorage,
    path: Seq<char>,
    a: Seq<char>,
    b: Seq<char>,
)
    requires
        is_copy_id(a),
        is_copy_id(b),
        a != b,
    ensures
        sidecar_location(storage, path, Some(a)) != sidecar_location(storage, path, Some(b)),
        sidecar_location(storage, path, Some(a)) != sidecar_location(storage, path, None),
        has_prefix(
            sidecar_location(storage, path, Some(a)),
            storage_directory(storage.root->0@, path, storage.windows),
        ),
        has_suffix(sidecar_location(storage, path, Some(a)), a + ".rrdata"@),
        has_suffix(sidecar_location(storage, path, None), "primary.rrdata"@),
{
    let directory = storage_directory(storage.root->0@, path, storage.windows);
    let (first, second, primary) = (
        sidecar_name(Some(a)),
        sidecar_name(Some(b)),
        sidecar_name(None),
    );
    law_sidecar_names_differ(a, b);
    law_joined_paths_have_one_slash(directory, first);
    law_joined_paths_have_one_slash(directory, second);
    law_joined_paths_have_one_slash(directory, primary);
    reveal_strlit(".rrdata");
    reveal_strlit("primary.rrdata");
    assert(first.len() == second.len());
    let start = joined(directory, first).len() - first.len();
    assert(joined(directory, first).subrange(start, joined(directory, first).len() as int) =~= first);
    assert(joined(directory, second).subrange(start, joined(directory, second).len() as int)
        =~= second);
    assert(joined(directory, primary).len() != joined(directory, first).len());
}

/// Paths of one identity share a directory, and on systems that tell cases apart only backslashes
/// are read as slashes.
pub proof fn law_identities_keep_their_letters(path: Seq<char>, ignores_case: bool, i: int)
    requires
        0 <= i < path.len(),
    ensures
        image_identity(path, ignores_case).len() == path.len(),
        path[i] == '\\' ==> image_identity(path, ignores_case)[i] == '/',
        path[i] != '\\' && (!ignores_case || path[i] < 'A' || path[i] > 'Z') ==> image_identity(
            path,
            ignores_case,
        )[i] == path[i],
        ignores_case && 'A' <= path[i] <= 'Z' ==> image_identity(path, ignores_case)[i] as u32
            == path[i] as u32 + 32,
{
}

/// The sidecars next to a photo: its own one, the one of its metadata, and those in the directory
/// that are named like its copies.
pub proof fn law_sidecars_lie_next_to_their_photo(
    directory: Seq<char>,
    image_name: Seq<char>,
    listing: Seq<Seq<char>>,
    i: int,
)
    ensures
        is_legacy_path_of(
            joined(directory, legacy_name(image_name, None)),
            directory,
            image_name,
            listing,
        ),
        is_legacy_path_of(
            joined(directory, image_name + ".rrexif"@),
            directory,
            image_name,
            listing,
        ),
        0 <= i < listing.len() && is_legacy_copy_of(listing[i], image_name) ==> is_legacy_path_of(
            joined(directory, listing[i]),
            directory,
            image_name,
            listing,
        ),
        forall|path: Seq<char>| #[trigger]
            is_legacy_path_of(path, directory, image_name, Seq::empty()) ==> path == joined(
                directory,
                legacy_name(image_name, None),
            ) || path == joined(directory, image_name + ".rrexif"@),
{
}

/// The digits of an identifier are those of a hexadecimal number, capital or not.
pub proof fn law_identifiers_are_hexadecimal(character: char, text: Seq<char>, i: int)
    ensures
        ({
            let number = character as u32;
            is_hex_digit(character) <==> (48 <= number <= 57 || 65 <= number <= 70 || 97 <= number
                <= 102)
        }),
        is_copy_id(text) ==> text.len() == 6,
        is_copy_id(text) && 0 <= i < 6 ==> is_hex_digit(text[i]),
{
}

/// Every text of six hexadecimal digits is the identifier of a copy.
pub proof fn law_six_digits_make_an_identifier(text: Seq<char>)
    requires
        text.len() == 6,
        forall|i: int|
            #![trigger text[i]]
            0 <= i < 6 ==> '0' <= text[i] <= '9' || 'a' <= text[i] <= 'f' || 'A' <= text[i] <= 'F',
    ensures
        is_copy_id(text),
{
}

} // verus!
