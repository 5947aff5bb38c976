//! Entity paths: where in the hierarchy of entities something is logged.
use re_log_types::EntityPath;
use vstd::prelude::*;

verus! {

/// `re_log_types::EntityPath`: a reference-counted list of path parts with a precomputed hash.
#[verifier::external_type_specification]
#[verifier::external_body]
pub struct ExEntityPath(re_log_types::EntityPath);

/// The unescaped texts of the parts that a path is made of, from the root down.
pub uninterp spec fn entity_path_parts(path: EntityPath) -> Seq<Seq<char>>;

/// The precomputed hash of a path. Two paths compare as equal if and only if their hashes agree.
pub uninterp spec fn entity_path_hash(path: EntityPath) -> u64;

/// How the path with these parts is written out in full, with a leading slash and with escapes.
pub uninterp spec fn path_text(parts: Seq<Seq<char>>) -> Seq<char>;

/// The parts of the path that a text stands for, read with a best-effort approach.
pub uninterp spec fn parsed_path(text: Seq<char>) -> Seq<Seq<char>>;

/// What a path part is sorted by in natural order (`image2` before `image10`): numbers for its
/// characters and for its runs of digits, to be compared one after the other.
pub uninterp spec fn natural_key(part: Seq<char>) -> Seq<int>;

/// Whether one list of numbers comes before another: by the first number that differs, and if there
/// is none, the shorter one first.
pub open spec fn key_before(a: Seq<int>, b: Seq<int>) -> bool
    decreases a.len(),
{
    b.len() > 0 && (a.len() == 0 || a[0] < b[0] || (a[0] == b[0] && key_before(
        a.skip(1),
        b.skip(1),
    )))
}

/// Whether one path part comes before another in natural order.
pub open spec fn comes_before(a: Seq<char>, b: Seq<char>) -> bool {
    key_before(natural_key(a), natural_key(b))
}

/// Whether one path comes before another: by the first part that differs, in natural order, and if
/// there is none, the shorter one first.
pub open spec fn path_before(a: Seq<Seq<char>>, b: Seq<Seq<char>>) -> bool
    decreases a.len(),
{
    b.len() > 0 && (a.len() == 0 || comes_before(a[0], b[0]) || (a[0] == b[0] && path_before(
        a.skip(1),
        b.skip(1),
    )))
}

/// What contracts know of a path: its parts and its hash.
#[verifier::ext_equal]
pub struct PathView {
    pub parts: Seq<Seq<char>>,
    pub hash: u64,
}

pub open spec fn path_view(path: EntityPath) -> PathView {
    PathView { parts: entity_path_parts(path), hash: entity_path_hash(path) }
}

/// Whether two lists of parts compare as equal hashes or one lies on the way to the other:
/// what "starts with" means for paths.
pub open spec fn starts_with(path: PathView, prefix: PathView) -> bool {
    path.hash == prefix.hash || (prefix.parts.len() <= path.parts.len()
        && path.parts.take(prefix.parts.len() as int) == prefix.parts)
}

/// Whether a path lies at or below another one.
pub open spec fn lies_under(parts: Seq<Seq<char>>, prefix: Seq<Seq<char>>) -> bool {
    prefix.len() <= parts.len() && parts.take(prefix.len() as int) == prefix
}

/// Another handle on the same path.
///
/// Calls `EntityPath::clone`, which shares the parts and copies the hash.
#[verifier::external_body]
pub(crate) fn clone_path(path: &EntityPath) -> (r: EntityPath)
    ensures
        r == *path,
{
    path.clone()
}

/// The root of the hierarchy.
///
/// Calls `EntityPath::root`, the path without parts.
#[verifier::external_body]
pub(crate) fn root_path() -> (r: EntityPath)
    ensures
        entity_path_parts(r) == Seq::<Seq<char>>::empty(),
{
    EntityPath::root()
}

/// The precomputed hash.
///
/// Calls `EntityPath::hash64`. The hash is computed from the parts alone, so any path with the same
/// parts has the same one.
#[verifier::external_body]
pub(crate) fn path_hash(path: &EntityPath) -> (r: u64)
    ensures
        r == entity_path_hash(*path),
        forall|other: EntityPath| #[trigger]
            entity_path_parts(other) == entity_path_parts(*path) ==> entity_path_hash(other) == r,
{
    path.hash64()
}

/// Whether two paths are the same.
///
/// Calls `EntityPath::eq`, which compares the hashes; the hash is computed from the parts, so paths
/// with the same parts are equal.
#[verifier::external_body]
pub(crate) fn same_path(a: &EntityPath, b: &EntityPath) -> (r: bool)
    ensures
        r == (entity_path_hash(*a) == entity_path_hash(*b)),
        entity_path_parts(*a) == entity_path_parts(*b) ==> r,
{
    a == b
}

/// How many parts the path has.
///
/// Calls `EntityPath::len`.
#[verifier::external_body]
pub(crate) fn path_len(path: &EntityPath) -> (r: usize)
    ensures
        r == entity_path_parts(*path).len(),
{
    path.len()
}

/// The text of one part.
///
/// Calls `EntityPathPart::unescaped_str` on an element of `EntityPath::as_slice`; an index past the
/// end would panic.
#[verifier::external_body]
pub(crate) fn path_part(path: &EntityPath, index: usize) -> (r: String)
    requires
        index < entity_path_parts(*path).len(),
    ensures
        r@ == entity_path_parts(*path)[index as int],
{
    path.as_slice()[index].unescaped_str().to_owned()
}

/// The path that leads to `path` and from there on along `tail`.
///
/// Calls `EntityPath::join`, which chains the parts of the two.
#[verifier::external_body]
pub(crate) fn join_path(path: &EntityPath, tail: &EntityPath) -> (r: EntityPath)
    ensures
        entity_path_parts(r) == entity_path_parts(*path) + entity_path_parts(*tail),
{
    path.join(tail)
}

/// The first `len` parts of a path.
///
/// Calls `EntityPath::from` on a slice of the parts; a length past the end would panic.
#[verifier::external_body]
pub(crate) fn path_prefix(path: &EntityPath, len: usize) -> (r: EntityPath)
    requires
        len <= entity_path_parts(*path).len(),
    ensures
        entity_path_parts(r) == entity_path_parts(*path).take(len as int),
{
    EntityPath::from(&path.as_slice()[..len])
}

/// What is left of a path behind its first `len` parts.
///
/// Calls `EntityPath::from` on a slice of the parts; a length past the end would panic.
#[verifier::external_body]
pub(crate) fn path_suffix(path: &EntityPath, len: usize) -> (r: EntityPath)
    requires
        len <= entity_path_parts(*path).len(),
    ensures
        entity_path_parts(r) == entity_path_parts(*path).skip(len as int),
{
    EntityPath::from(&path.as_slice()[len..])
}

/// The path whose only part is `part`, slashes and all.
///
/// Calls `EntityPath::from_single_string`. The part is interned by a hash that
/// `re_string_interner` documents as taken to be perfect; the contract rests on that.
#[verifier::external_body]
pub(crate) fn single_part_path(part: &str) -> (r: EntityPath)
    ensures
        entity_path_parts(r) == seq![part@],
{
    EntityPath::from_single_string(part)
}

/// Whether a path reads back as it is written: no part is empty, none but the last ends in a
/// backslash, and no character needs more than four hexadecimal digits.
pub open spec fn is_readable(parts: Seq<Seq<char>>) -> bool {
    &&& forall|i: int| 0 <= i < parts.len() ==> (#[trigger] parts[i]).len() > 0
    &&& forall|i: int| 0 <= i < parts.len() - 1 ==> (#[trigger] parts[i]).last() != '\\'
    &&& forall|i: int, k: int|
        #![trigger parts[i][k]]
        0 <= i < parts.len() && 0 <= k < parts[i].len() ==> parts[i][k] <= '\u{ffff}'
}

/// The path written out.
///
/// Calls the `to_string` of `EntityPath`, which writes a slash before each part and escapes what is
/// not a letter or a digit, and just a slash for the root. `EntityPath::parse_forgiving` splits at
/// slashes that no backslash comes before, and knows escapes of four hexadecimal digits: that is
/// why it gives back some paths only.
#[verifier::external_body]
pub(crate) fn path_to_string(path: &EntityPath) -> (r: String)
    ensures
        r@ == path_text(entity_path_parts(*path)),
        is_readable(entity_path_parts(*path)) ==> parsed_path(r@) == entity_path_parts(*path),
{
    path.to_string()
}

/// Reads a path.
///
/// Calls `EntityPath::from` on a string, which parses it and never fails.
#[verifier::external_body]
pub(crate) fn parse_path(text: &str) -> (r: EntityPath)
    ensures
        entity_path_parts(r) == parsed_path(text@),
{
    EntityPath::from(text)
}

/// Whether one part comes before another.
///
/// Calls `EntityPathPart::lt`, which goes by the natural order of the unescaped texts. Of two
/// different texts, one always comes before the other.
#[verifier::external_body]
pub(crate) fn part_before(a: &str, b: &str) -> (r: bool)
    ensures
        r == key_before(natural_key(a@), natural_key(b@)),
        !r && !key_before(natural_key(b@), natural_key(a@)) ==> a@ == b@,
{
    re_log_types::EntityPathPart::new(a) < re_log_types::EntityPathPart::new(b)
}

/// Whether `path` leads to one of `paths`.
pub open spec fn paths_contain(paths: Seq<EntityPath>, path: EntityPath) -> bool {
    exists|i: int|
        0 <= i < paths.len() && entity_path_hash(#[trigger] paths[i]) == entity_path_hash(path)
}

pub fn is_one_of_paths(path: &EntityPath, paths: &Vec<EntityPath>) -> (r: bool)
    ensures
        r == paths_contain(paths@, *path),
{
    let mut i: usize = 0;
    while i < paths.len()
        invariant
            i <= paths.len(),
            forall|j: int|
                0 <= j < i ==> entity_path_hash(#[trigger] paths@[j]) != entity_path_hash(*path),
        decreases paths.len() - i,
    {
        if same_path(&paths[i], path) {
            return true;
        }
        i += 1;
    }
    false
}

/// The hash of any path with these parts.
pub open spec fn hash_of(parts: Seq<Seq<char>>) -> u64 {
    entity_path_hash(choose|path: EntityPath| entity_path_parts(path) == parts)
}

/// The hash of a path, which its parts settle.
pub(crate) fn settled_hash(path: &EntityPath) -> (r: u64)
    ensures
        r == entity_path_hash(*path),
        r == hash_of(entity_path_parts(*path)),
{
    path_hash(path)
}

// --- What is true of the order of paths.

pub proof fn lemma_key_irreflexive(a: Seq<int>)
    ensures
        !key_before(a, a),
    decreases a.len(),
{
    if a.len() > 0 {
        lemma_key_irreflexive(a.skip(1));
    }
}

pub proof fn lemma_key_transitive(a: Seq<int>, b: Seq<int>, c: Seq<int>)
    requires
        key_before(a, b),
        key_before(b, c),
    ensures
        key_before(a, c),
    decreases a.len(),
{
    if a.len() > 0 && a[0] == b[0] && b[0] == c[0] {
        lemma_key_transitive(a.skip(1), b.skip(1), c.skip(1));
    }
}

/// What comes before something else does not come after it.
pub proof fn lemma_comes_before(a: Seq<char>, b: Seq<char>)
    ensures
        !(comes_before(a, b) && comes_before(b, a)),
        !comes_before(a, a),
{
    lemma_key_irreflexive(natural_key(a));
    if comes_before(a, b) && comes_before(b, a) {
        lemma_key_transitive(natural_key(a), natural_key(b), natural_key(a));
    }
}

/// Where two paths begin with the same parts, the rest decides.
pub proof fn lemma_common_parts(
    prefix: Seq<Seq<char>>,
    a: Seq<Seq<char>>,
    b: Seq<Seq<char>>,
)
    ensures
        path_before(prefix + a, prefix + b) == path_before(a, b),
    decreases prefix.len(),
{
    if prefix.len() == 0 {
        assert(prefix + a =~= a);
        assert(prefix + b =~= b);
    } else {
        lemma_comes_before(prefix[0], prefix[0]);
        lemma_common_parts(prefix.skip(1), a, b);
        assert((prefix + a).skip(1) =~= prefix.skip(1) + a);
        assert((prefix + b).skip(1) =~= prefix.skip(1) + b);
    }
}

} // verus!
