//! The assembly of the destination mapping: which archives to fetch, which
//! of the extracted files a package claims, and how the claims of all
//! packages and the explicitly configured files come together.
//!
//! Fetching and extracting happen outside: their outcomes come in as values,
//! in the order in which the packages were declared, and that order alone
//! decides which package fills a destination that several claim.

use crate::config::File;
use crate::download::{file_url, get_file_url, layer_count, PACKAGE_LAYERS};
use crate::index::{archive_file_name, PackageIndex, PackageRecord};
use crate::mapping::{conflicts, lemma_merge_all_domain, merge_all, DestinationMapping};
use crate::table::{distinct_keys, has_key, lemma_to_map_domain, listing, to_map};
use crate::order::same_text;
use crate::text::{has_prefix, texts, to_chars};
use vstd::prelude::*;

verus! {

/// `name` is one of the files that a package carries for the installer: a
/// script that runs before or after an install, an upgrade or a removal, or
/// the package's description.
pub open spec fn lifecycle_name(name: Seq<char>) -> bool {
    ||| name == ".pre-deinstall"@
    ||| name == ".post-deinstall"@
    ||| name == ".pre-upgrade"@
    ||| name == ".post-upgrade"@
    ||| name == ".pre-install"@
    ||| name == ".post-install"@
    ||| name == ".PKGINFO"@
}

/// `name` is the name of a signature file.
pub open spec fn signature_name(name: Seq<char>) -> bool {
    ".SIGN"@.is_prefix_of(name)
}

/// A file of the name `name` belongs in the assembled tree.
pub open spec fn keeps_name(name: Seq<char>) -> bool {
    !lifecycle_name(name) && !signature_name(name)
}

/// Whether a file of the name `name` belongs in the assembled tree: every
/// file does but the installer's scripts, the package description and the
/// signature files.
pub fn filter_file_names(name: &str) -> (keep: bool)
    ensures
        keep == keeps_name(name@),
{
    if same_text(name, ".pre-deinstall") || same_text(name, ".post-deinstall") || same_text(
        name,
        ".pre-upgrade",
    ) || same_text(name, ".post-upgrade") || same_text(name, ".pre-install") || same_text(
        name,
        ".post-install",
    ) || same_text(name, ".PKGINFO") {
        return false;
    }
    if has_prefix(&to_chars(name), ".SIGN") {
        return false;
    }
    true
}

/// What kind of thing a walk of an extracted tree came upon.
#[derive(Debug, Clone, Copy, PartialEq, Eq, Structural)]
pub enum FileKind {
    File,
    Symlink,
    Directory,
    Other,
}

/// One thing that a walk of a package's extracted tree came upon.
pub struct WalkedEntry {
    /// The destination: the path below the root of the extracted tree, with
    /// forward slashes.
    pub dest: String,
    /// The path on local storage.
    pub source: String,
    /// The last component of the path.
    pub file_name: String,
    pub kind: FileKind,
}

/// The forward-slash form of `path`, as `to_slash` of `path_slash` gives it
/// on the platform that the program is built for: there the form depends on
/// the path alone. Where the separator is the slash it is the path's own
/// text; where it is the backslash the path's components are joined by
/// slashes.
pub uninterp spec fn slash_form(path: Seq<char>) -> Option<Seq<char>>;

/// Writes `path` with forward slashes, by `to_slash` of `path_slash` on the
/// `PathBuf` made from it. `to_slash` gives no result only where the path,
/// or on Windows one of its components, is not Unicode; a path made from a
/// `str` is, so there is a result. The contract names it and claims nothing
/// else of it.
#[verifier::external_body]
fn to_slash(path: &str) -> (slashed: Option<String>)
    ensures
        slashed is Some,
        match slashed {
            Some(s) => slash_form(path@) == Some(s@),
            None => slash_form(path@) is None,
        },
{
    path_slash::PathBufExt::to_slash(&std::path::PathBuf::from(path)).map(|s| s.into_owned())
}

/// The entry with the destination `slashed`, if there is one.
pub open spec fn entry_at(
    slashed: Option<String>,
    source: String,
    file_name: String,
    kind: FileKind,
) -> Option<WalkedEntry> {
    match slashed {
        Some(dest) => Some(WalkedEntry { dest, source, file_name, kind }),
        None => None,
    }
}

impl WalkedEntry {
    /// The entry for what was found at `path` below the root of an extracted
    /// tree: its destination is the forward-slash form of `path`. The form is
    /// asked of `path_slash`, for `path` as it is given, and every path has
    /// one; the entry is the one that `from_slashed` makes of it.
    pub fn new(path: &str, source: String, file_name: String, kind: FileKind) -> (entry: Option<
        WalkedEntry,
    >)
        ensures
            entry matches Some(e) && slash_form(path@) == Some(e.dest@) && e.source == source
                && e.file_name == file_name && e.kind == kind,
    {
        let slashed = to_slash(path);
        WalkedEntry::from_slashed(slashed, source, file_name, kind)
    }

    /// The entry for what a walk found, given the forward-slash form of its
    /// path below the root of the extracted tree: an entry with that form as
    /// its destination, or none where the path has no such form.
    pub fn from_slashed(
        slashed: Option<String>,
        source: String,
        file_name: String,
        kind: FileKind,
    ) -> (entry: Option<WalkedEntry>)
        ensures
            entry == entry_at(slashed, source, file_name, kind),
    {
        match slashed {
            Some(dest) => Some(WalkedEntry { dest, source, file_name, kind }),
            None => None,
        }
    }
}

/// The package claims a destination for `entry`: it is a regular file or a
/// symbolic link, and its name is none that is left out.
pub open spec fn wanted(entry: WalkedEntry) -> bool {
    (entry.kind is File || entry.kind is Symlink) && keeps_name(entry.file_name@)
}

/// The claims of a package: destination and source of each wanted entry, in
/// the order of the walk.
pub open spec fn claims(entries: Seq<WalkedEntry>) -> Seq<(Seq<char>, Seq<char>)>
    decreases entries.len(),
{
    if entries.len() == 0 {
        Seq::empty()
    } else if wanted(entries.last()) {
        claims(entries.drop_last()).push((entries.last().dest@, entries.last().source@))
    } else {
        claims(entries.drop_last())
    }
}

/// The claims without those whose destination an earlier claim has.
pub open spec fn first_claims(claims: Seq<(Seq<char>, Seq<char>)>) -> Seq<(Seq<char>, Seq<char>)>
    decreases claims.len(),
{
    if claims.len() == 0 {
        Seq::empty()
    } else {
        let kept = first_claims(claims.drop_last());
        if has_key(kept, claims.last().0) {
            kept
        } else {
            kept.push(claims.last())
        }
    }
}

/// The destinations of the claims whose destination an earlier claim has, in
/// order.
pub open spec fn repeated(claims: Seq<(Seq<char>, Seq<char>)>) -> Seq<Seq<char>>
    decreases claims.len(),
{
    if claims.len() == 0 {
        Seq::empty()
    } else if has_key(first_claims(claims.drop_last()), claims.last().0) {
        repeated(claims.drop_last()).push(claims.last().0)
    } else {
        repeated(claims.drop_last())
    }
}

/// The first claims have the destinations of all claims, each once.
pub proof fn lemma_first_claims(claims: Seq<(Seq<char>, Seq<char>)>)
    ensures
        distinct_keys(first_claims(claims)),
        forall|dest: Seq<char>| has_key(first_claims(claims), dest) <==> has_key(claims, dest),
    decreases claims.len(),
{
    let kept = first_claims(claims);
    if claims.len() > 0 {
        let front = claims.drop_last();
        let before = first_claims(front);
        lemma_first_claims(front);
        assert forall|i: int, j: int| 0 <= i < j < kept.len() implies (#[trigger] kept[i]).0 != (
        #[trigger] kept[j]).0 by {
            if j < before.len() {
                assert(before[i].0 != before[j].0);
            } else {
                assert(before[i].0 == kept[i].0);
            }
        }
        assert forall|dest: Seq<char>| has_key(kept, dest) <==> has_key(claims, dest) by {
            if has_key(kept, dest) {
                let i = choose|i: int| 0 <= i < kept.len() && (#[trigger] kept[i]).0 == dest;
                if i < before.len() {
                    assert(before[i].0 == dest);
                    assert(has_key(front, dest));
                    let j = choose|j: int| 0 <= j < front.len() && (#[trigger] front[j]).0 == dest;
                    assert(claims[j].0 == dest);
                } else {
                    assert(claims[claims.len() - 1].0 == dest);
                }
            }
            if has_key(claims, dest) {
                let j = choose|j: int| 0 <= j < claims.len() && (#[trigger] claims[j]).0 == dest;
                if j < front.len() {
                    assert(front[j].0 == dest);
                    assert(has_key(front, dest));
                    assert(has_key(before, dest));
                    let i = choose|i: int|
                        0 <= i < before.len() && (#[trigger] before[i]).0 == dest;
                    assert(kept[i].0 == dest);
                } else if has_key(before, dest) {
                    let i = choose|i: int|
                        0 <= i < before.len() && (#[trigger] before[i]).0 == dest;
                    assert(kept[i].0 == dest);
                } else {
                    assert(kept[kept.len() - 1].0 == dest);
                }
            }
        }
    }
}

/// Within one package a destination is filled by the first claim for it,
/// whatever later claims say.
pub proof fn lemma_first_claim_wins(claims: Seq<(Seq<char>, Seq<char>)>, i: int)
    requires
        0 <= i < claims.len(),
        forall|j: int| 0 <= j < i ==> (#[trigger] claims[j]).0 != claims[i].0,
    ensures
        to_map(first_claims(claims)).contains_key(claims[i].0),
        to_map(first_claims(claims))[claims[i].0] == claims[i].1,
    decreases claims.len(),
{
    let front = claims.drop_last();
    let before = first_claims(front);
    lemma_first_claims(front);
    lemma_first_claims(claims);
    if i < claims.len() - 1 {
        assert(front[i] == claims[i]);
        assert forall|j: int| 0 <= j < i implies (#[trigger] front[j]).0 != front[i].0 by {
            assert(claims[j].0 != claims[i].0);
        }
        lemma_first_claim_wins(front, i);
        lemma_to_map_domain(before, claims[i].0);
        if !has_key(before, claims.last().0) {
            assert(first_claims(claims).drop_last() == before);
        }
    } else {
        if has_key(before, claims[i].0) {
            assert(has_key(front, claims[i].0));
            let j = choose|j: int| 0 <= j < front.len() && (#[trigger] front[j]).0 == claims[i].0;
            assert(claims[j].0 == claims[i].0);
        }
        assert(first_claims(claims).drop_last() == before);
    }
}

/// Every destination of a package's mapping is the destination of an entry
/// that the package wants: no file that is left out gets one.
pub proof fn lemma_claims_are_wanted(entries: Seq<WalkedEntry>, dest: Seq<char>)
    ensures
        to_map(first_claims(claims(entries))).contains_key(dest) <==> exists|i: int|
            0 <= i < entries.len() && wanted(#[trigger] entries[i]) && entries[i].dest@ == dest,
    decreases entries.len(),
{
    lemma_first_claims(claims(entries));
    lemma_to_map_domain(first_claims(claims(entries)), dest);
    lemma_claims_keys(entries, dest);
}

/// A destination is claimed exactly if a wanted entry has it.
proof fn lemma_claims_keys(entries: Seq<WalkedEntry>, dest: Seq<char>)
    ensures
        has_key(claims(entries), dest) <==> exists|i: int|
            0 <= i < entries.len() && wanted(#[trigger] entries[i]) && entries[i].dest@ == dest,
    decreases entries.len(),
{
    if entries.len() > 0 {
        let front = entries.drop_last();
        lemma_claims_keys(front, dest);
        let all = claims(entries);
        let part = claims(front);
        if has_key(all, dest) {
            let k = choose|k: int| 0 <= k < all.len() && (#[trigger] all[k]).0 == dest;
            if k < part.len() {
                assert(part[k].0 == dest);
                let i = choose|i: int|
                    0 <= i < front.len() && wanted(#[trigger] front[i]) && front[i].dest@ == dest;
                assert(wanted(entries[i]) && entries[i].dest@ == dest);
            } else {
                assert(wanted(entries[entries.len() - 1]) && entries[entries.len() - 1].dest@
                    == dest);
            }
        }
        if exists|i: int|
            0 <= i < entries.len() && wanted(#[trigger] entries[i]) && entries[i].dest@ == dest {
            let i = choose|i: int|
                0 <= i < entries.len() && wanted(#[trigger] entries[i]) && entries[i].dest@
                    == dest;
            if i < front.len() {
                assert(wanted(front[i]) && front[i].dest@ == dest);
                let k = choose|k: int| 0 <= k < part.len() && (#[trigger] part[k]).0 == dest;
                assert(all[k].0 == dest);
            } else {
                assert(all[all.len() - 1].0 == dest);
            }
        }
    }
}

/// The files that one package contributes, and the destinations that its
/// tree held more than once.
pub struct LocalFiles {
    pub mapping: DestinationMapping,
    /// The destination of each entry that was skipped because an earlier
    /// entry of the same package had it.
    pub duplicates: Vec<String>,
}

/// The mapping of one package from the walk of its extracted tree: each
/// regular file and symbolic link whose name is not left out, under its
/// destination. Where the tree holds a destination twice the first entry
/// stays and the destination is noted.
pub fn local_mapping(entries: &Vec<WalkedEntry>) -> (local: LocalFiles)
    ensures
        local.mapping@ == to_map(first_claims(claims(entries@))),
        texts(local.duplicates@) == repeated(claims(entries@)),
{
    let mut mapping = DestinationMapping::new();
    let mut duplicates: Vec<String> = Vec::new();
    let mut i: usize = 0;
    assert(entries@.take(0) == Seq::<WalkedEntry>::empty());
    assert(texts(duplicates@) == Seq::<Seq<char>>::empty());
    while i < entries.len()
        invariant
            i <= entries@.len(),
            mapping@ == to_map(first_claims(claims(entries@.take(i as int)))),
            texts(duplicates@) == repeated(claims(entries@.take(i as int))),
        decreases entries@.len() - i,
    {
        let entry = &entries[i];
        let ghost part = entries@.take(i as int);
        let ghost next = entries@.take(i + 1);
        assert(next.drop_last() == part);
        assert(next.last() == *entry);
        let claimed = match entry.kind {
            FileKind::File => true,
            FileKind::Symlink => true,
            _ => false,
        };
        if claimed && filter_file_names(entry.file_name.as_str()) {
            assert(wanted(*entry));
            proof {
                let kept = first_claims(claims(part));
                assert(claims(next).drop_last() == claims(part));
                lemma_to_map_domain(kept, entry.dest@);
                if !has_key(kept, entry.dest@) {
                    assert(kept.push((entry.dest@, entry.source@)).drop_last() == kept);
                }
            }
            if !mapping.insert_if_absent(entry.dest.clone(), entry.source.clone()) {
                let ghost before = duplicates@;
                duplicates.push(entry.dest.clone());
                assert(texts(duplicates@) == texts(before).push(entry.dest@));
            }
        } else {
            assert(!wanted(*entry));
        }
        i += 1;
    }
    assert(entries@.take(entries@.len() as int) == entries@);
    LocalFiles { mapping, duplicates }
}

/// Why a package's files could not be had.
#[derive(Debug, Clone, Copy, PartialEq, Eq, Structural)]
pub enum FetchFailure {
    /// The archive could not be fetched.
    Network,
    /// What was fetched is no container of the expected members.
    Decode,
    /// The files could not be written to or read from local storage.
    Io,
}

/// Why nothing was assembled.
#[derive(Debug)]
pub enum AssembleError {
    /// The index has no package of this name.
    UnknownPackage { name: String },
    /// The files of this package could not be had.
    Fetch { name: String, failure: FetchFailure },
}

/// An archive to fetch and extract.
pub struct FetchRequest {
    /// The package's name as it was requested.
    pub package: String,
    /// The archive's file name.
    pub file_name: String,
    /// The address of the archive.
    pub url: String,
    /// The number of members in the archive's container.
    pub layers: usize,
}

/// `request` asks for the archive of `record`, requested as `name`, from
/// `mirror`.
pub open spec fn request_for(
    request: FetchRequest,
    name: Seq<char>,
    record: PackageRecord,
    mirror: Option<Seq<char>>,
) -> bool {
    &&& request.package@ == name
    &&& request.file_name@ == archive_file_name(record)
    &&& request.url@ == file_url(archive_file_name(record), mirror)
    &&& request.layers == PACKAGE_LAYERS
}

/// `i` is the place of the first name that the index lacks.
pub open spec fn first_unknown(
    names: Seq<String>,
    index: Map<Seq<char>, PackageRecord>,
    i: int,
) -> bool {
    &&& 0 <= i < names.len()
    &&& !index.contains_key(names[i]@)
    &&& forall|j: int| 0 <= j < i ==> index.contains_key((#[trigger] names[j])@)
}

/// The text of a mirror that may be absent.
pub open spec fn mirror_text(mirror: Option<String>) -> Option<Seq<char>> {
    match mirror {
        Some(base) => Some(base@),
        None => None,
    }
}

/// The archives to fetch for the packages `names`, one for each name and in
/// the same order. A name that the index lacks fails the whole plan: the
/// error names the first such name, and no request is made.
pub fn plan_fetches(names: &Vec<String>, index: &PackageIndex, mirror: &Option<String>) -> (plan:
    Result<Vec<FetchRequest>, AssembleError>)
    ensures
        match plan {
            Ok(requests) => {
                &&& requests@.len() == names@.len()
                &&& forall|i: int|
                    0 <= i < names@.len() ==> index@.contains_key((#[trigger] names@[i])@)
                        && request_for(
                        requests@[i],
                        names@[i]@,
                        index@[names@[i]@],
                        mirror_text(*mirror),
                    )
            },
            Err(e) => e matches AssembleError::UnknownPackage { name } && exists|i: int|
                first_unknown(names@, index@, i) && (#[trigger] names@[i])@ == name@,
        },
{
    let mut requests: Vec<FetchRequest> = Vec::new();
    let mut i: usize = 0;
    while i < names.len()
        invariant
            i <= names@.len(),
            requests@.len() == i,
            forall|j: int|
                0 <= j < i ==> index@.contains_key((#[trigger] names@[j])@) && request_for(
                    requests@[j],
                    names@[j]@,
                    index@[names@[j]@],
                    mirror_text(*mirror),
                ),
        decreases names@.len() - i,
    {
        let name = &names[i];
        match index.get(name.as_str()) {
            Some(info) => {
                let file_name = info.file_name();
                let base = match mirror {
                    Some(base) => Some(base.clone()),
                    None => None,
                };
                let url = get_file_url(file_name.as_str(), base);
                let layers = layer_count(true);
                requests.push(FetchRequest { package: name.clone(), file_name, url, layers });
            },
            None => {
                assert(first_unknown(names@, index@, i as int));
                return Err(AssembleError::UnknownPackage { name: name.clone() });
            },
        }
        i += 1;
    }
    Ok(requests)
}

/// What fetching and extracting one package gave: the walk of its extracted
/// tree, or the reason why there is none.
pub struct PackageOutcome {
    /// The package's name.
    pub name: String,
    pub files: Result<Vec<WalkedEntry>, FetchFailure>,
}

/// The mapping of a package: each destination that it claims, from the
/// source of its first claim.
pub open spec fn local_map(outcome: PackageOutcome) -> Map<Seq<char>, Seq<char>> {
    match outcome.files {
        Ok(entries) => to_map(first_claims(claims(entries@))),
        Err(_) => Map::empty(),
    }
}

/// The mappings of the packages, in the order of the packages.
pub open spec fn locals(outcomes: Seq<PackageOutcome>) -> Seq<Map<Seq<char>, Seq<char>>> {
    outcomes.map_values(|outcome: PackageOutcome| local_map(outcome))
}

/// The source of explicit file `i` was found on local storage.
pub open spec fn accessible(present: Seq<bool>, i: int) -> bool {
    0 <= i < present.len() && present[i]
}

/// `base` with the explicit files laid over it in their order: each file
/// whose source was found fills its destination, whatever filled it before;
/// a file whose source was not found changes nothing.
pub open spec fn overlaid(
    base: Map<Seq<char>, Seq<char>>,
    files: Seq<File>,
    present: Seq<bool>,
) -> Map<Seq<char>, Seq<char>>
    decreases files.len(),
{
    if files.len() == 0 {
        base
    } else {
        let before = overlaid(base, files.drop_last(), present);
        if accessible(present, files.len() - 1) {
            before.insert(files.last().dest@, files.last().source@)
        } else {
            before
        }
    }
}

/// The assembled mapping: the mappings of the packages merged in the order
/// of the packages, then the explicit files laid over them.
pub open spec fn assembled(
    outcomes: Seq<PackageOutcome>,
    files: Seq<File>,
    present: Seq<bool>,
) -> Map<Seq<char>, Seq<char>> {
    overlaid(merge_all(locals(outcomes)), files, present)
}

/// The destinations that were skipped while the packages were put together:
/// for each package in order, those that its own tree held twice, in the
/// order of the walk, and then those of its mapping that an earlier package
/// had filled, in the order of the destinations.
pub open spec fn skipped(outcomes: Seq<PackageOutcome>) -> Seq<Seq<char>>
    decreases outcomes.len(),
{
    if outcomes.len() == 0 {
        Seq::empty()
    } else {
        let front = outcomes.drop_last();
        let own = match outcomes.last().files {
            Ok(entries) => repeated(claims(entries@)),
            Err(_) => Seq::empty(),
        };
        skipped(front) + own + conflicts(
            merge_all(locals(front)),
            listing(local_map(outcomes.last())),
        )
    }
}

/// `i` is the place of the first package whose files could not be had.
pub open spec fn first_failure(outcomes: Seq<PackageOutcome>, i: int) -> bool {
    &&& 0 <= i < outcomes.len()
    &&& outcomes[i].files is Err
    &&& forall|j: int| 0 <= j < i ==> (#[trigger] outcomes[j]).files is Ok
}

/// `dest` is the destination of an entry that package `k` wants.
pub open spec fn claimed_by(outcomes: Seq<PackageOutcome>, k: int, dest: Seq<char>) -> bool {
    &&& 0 <= k < outcomes.len()
    &&& outcomes[k].files matches Ok(entries)
    &&& exists|i: int|
        0 <= i < entries@.len() && wanted(#[trigger] entries@[i]) && entries@[i].dest@ == dest
}

/// Every destination that the packages fill is the destination of a regular
/// file or symbolic link of some package whose name is none that is left
/// out.
pub proof fn lemma_merged_are_wanted(outcomes: Seq<PackageOutcome>, dest: Seq<char>)
    ensures
        merge_all(locals(outcomes)).contains_key(dest) <==> exists|k: int| #[trigger]
            claimed_by(outcomes, k, dest),
{
    lemma_merge_all_domain(locals(outcomes), dest);
    if merge_all(locals(outcomes)).contains_key(dest) {
        let k = choose|k: int|
            0 <= k < locals(outcomes).len() && (#[trigger] locals(outcomes)[k]).contains_key(dest);
        match outcomes[k].files {
            Ok(entries) => {
                lemma_claims_are_wanted(entries@, dest);
            },
            Err(_) => {},
        }
        assert(claimed_by(outcomes, k, dest));
    }
    if exists|k: int| #[trigger] claimed_by(outcomes, k, dest) {
        let k = choose|k: int| #[trigger] claimed_by(outcomes, k, dest);
        lemma_claims_are_wanted(outcomes[k].files->Ok_0@, dest);
        assert(locals(outcomes)[k].contains_key(dest));
    }
}

/// A destination that no explicit file with a source has is filled as the
/// packages fill it: an explicit file whose source was not found changes
/// nothing.
pub proof fn lemma_overlay_keeps(
    base: Map<Seq<char>, Seq<char>>,
    files: Seq<File>,
    present: Seq<bool>,
    dest: Seq<char>,
)
    requires
        forall|i: int|
            0 <= i < files.len() && accessible(present, i) ==> (#[trigger] files[i]).dest@ != dest,
    ensures
        overlaid(base, files, present).contains_key(dest) == base.contains_key(dest),
        base.contains_key(dest) ==> overlaid(base, files, present)[dest] == base[dest],
    decreases files.len(),
{
    if files.len() > 0 {
        let front = files.drop_last();
        assert forall|i: int| 0 <= i < front.len() && accessible(present, i) implies (
        #[trigger] front[i]).dest@ != dest by {
            assert(files[i].dest@ != dest);
        }
        lemma_overlay_keeps(base, front, present, dest);
        if accessible(present, files.len() - 1) {
            assert(files[files.len() - 1].dest@ != dest);
        }
    }
}

/// An explicit file whose source was found fills its destination, whatever
/// the packages put there, unless a later explicit file with a source has
/// the same destination.
pub proof fn lemma_overlay_fills(
    base: Map<Seq<char>, Seq<char>>,
    files: Seq<File>,
    present: Seq<bool>,
    i: int,
)
    requires
        0 <= i < files.len(),
        accessible(present, i),
        forall|j: int|
            i < j < files.len() && accessible(present, j) ==> (#[trigger] files[j]).dest@
                != files[i].dest@,
    ensures
        overlaid(base, files, present).contains_key(files[i].dest@),
        overlaid(base, files, present)[files[i].dest@] == files[i].source@,
    decreases files.len(),
{
    if i < files.len() - 1 {
        let front = files.drop_last();
        assert(front[i] == files[i]);
        assert forall|j: int| i < j < front.len() && accessible(present, j) implies (
        #[trigger] front[j]).dest@ != front[i].dest@ by {
            assert(files[j].dest@ != files[i].dest@);
        }
        lemma_overlay_fills(base, front, present, i);
        if accessible(present, files.len() - 1) {
            assert(files[files.len() - 1].dest@ != files[i].dest@);
        }
    }
}

/// Lays one explicit file over the mapping: where its source was found
/// (`found`) it fills its destination, whatever filled it before; where not,
/// the mapping stays as it is.
pub fn apply_explicit(mapping: &mut DestinationMapping, file: &File, found: bool)
    ensures
        found ==> final(mapping)@ == old(mapping)@.insert(file.dest@, file.source@),
        !found ==> final(mapping)@ == old(mapping)@,
{
    if found {
        mapping.insert(file.dest.clone(), file.source.clone());
    }
}

/// Lays the explicit files over the mapping, in their order. `present` says
/// of each file whether its source was found; a file for which it says
/// nothing counts as not found.
pub fn overlay_explicit(mapping: &mut DestinationMapping, files: &Vec<File>, present: &Vec<bool>)
    ensures
        final(mapping)@ == overlaid(old(mapping)@, files@, present@),
{
    let mut i: usize = 0;
    assert(files@.take(0) == Seq::<File>::empty());
    while i < files.len()
        invariant
            i <= files@.len(),
            mapping@ == overlaid(old(mapping)@, files@.take(i as int), present@),
        decreases files@.len() - i,
    {
        assert(files@.take(i + 1).drop_last() == files@.take(i as int));
        assert(files@.take(i + 1).last() == files@[i as int]);
        let found = i < present.len() && present[i];
        apply_explicit(mapping, &files[i], found);
        i += 1;
    }
    assert(files@.take(files@.len() as int) == files@);
}

/// The assembled mapping and the destinations that were skipped on the way.
pub struct Assembly {
    pub mapping: DestinationMapping,
    /// The destinations that were claimed again after they had been filled,
    /// in the order in which they were skipped.
    pub skipped: Vec<String>,
}

/// Puts the outcomes of all packages together. Where the files of a package
/// could not be had, nothing is assembled and the error names the first such
/// package. Otherwise the mappings of the packages are merged in the order
/// of `outcomes`, so that a destination stays with the first package that
/// claims it, and the explicit files are laid over the result.
pub fn assemble(outcomes: &Vec<PackageOutcome>, files: &Vec<File>, present: &Vec<bool>) -> (done:
    Result<Assembly, AssembleError>)
    ensures
        match done {
            Ok(assembly) => {
                &&& forall|i: int|
                    0 <= i < outcomes@.len() ==> (#[trigger] outcomes@[i]).files is Ok
                &&& assembly.mapping@ == assembled(outcomes@, files@, present@)
                &&& texts(assembly.skipped@) == skipped(outcomes@)
            },
            Err(e) => e matches AssembleError::Fetch { name, failure } && exists|i: int|
                first_failure(outcomes@, i) && (#[trigger] outcomes@[i]).name@ == name@
                    && outcomes@[i].files == Err::<Vec<WalkedEntry>, FetchFailure>(failure),
        },
{
    let mut i: usize = 0;
    while i < outcomes.len()
        invariant
            i <= outcomes@.len(),
            forall|j: int| 0 <= j < i ==> (#[trigger] outcomes@[j]).files is Ok,
        decreases outcomes@.len() - i,
    {
        match &outcomes[i].files {
            Ok(_) => {},
            Err(failure) => {
                assert(first_failure(outcomes@, i as int));
                return Err(
                    AssembleError::Fetch { name: outcomes[i].name.clone(), failure: *failure },
                );
            },
        }
        i += 1;
    }
    let mut mapping = DestinationMapping::new();
    let mut notes: Vec<String> = Vec::new();
    let mut k: usize = 0;
    assert(outcomes@.take(0) == Seq::<PackageOutcome>::empty());
    assert(locals(outcomes@.take(0)) == Seq::<Map<Seq<char>, Seq<char>>>::empty());
    assert(texts(notes@) == Seq::<Seq<char>>::empty());
    while k < outcomes.len()
        invariant
            k <= outcomes@.len(),
            forall|j: int| 0 <= j < outcomes@.len() ==> (#[trigger] outcomes@[j]).files is Ok,
            mapping@ == merge_all(locals(outcomes@.take(k as int))),
            texts(notes@) == skipped(outcomes@.take(k as int)),
        decreases outcomes@.len() - k,
    {
        let ghost part = outcomes@.take(k as int);
        let ghost next = outcomes@.take(k + 1);
        assert(next.drop_last() == part);
        assert(next.last() == outcomes@[k as int]);
        assert(locals(next).drop_last() == locals(part));
        match &outcomes[k].files {
            Ok(entries) => {
                let local = local_mapping(entries);
                let ghost before = texts(notes@);
                let mut duplicates = local.duplicates;
                let ghost own = texts(duplicates@);
                notes.append(&mut duplicates);
                assert(texts(notes@) == before + own);
                local.mapping.entries_sorted();
                let mut conflicting = mapping.merge(&local.mapping);
                let ghost other = texts(conflicting@);
                notes.append(&mut conflicting);
                assert(texts(notes@) == before + own + other);
            },
            Err(_) => {},
        }
        k += 1;
    }
    assert(outcomes@.take(outcomes@.len() as int) == outcomes@);
    overlay_explicit(&mut mapping, files, present);
    Ok(Assembly { mapping, skipped: notes })
}

} // verus!
