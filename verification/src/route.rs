//! Paths of page files and the routes they stand for.
//!
//! A path is read as a list of segments: the pieces between `/` characters,
//! leaving out empty pieces and `.`. Each directory level below the route root
//! contributes one route component, except route groups, which contribute none.

use crate::text::{
    append_chars, chars_of, contains, copy_chars, join, join_chars, lemma_split_on_concat,
    lemma_split_on_plain, occurs_in, same_chars, seqs, split, split_on, string_of,
};
use vstd::prelude::*;

verus! {

/// Why a path could not be turned into a route record.
#[derive(Clone, Copy, Debug, PartialEq, Eq, Structural)]
pub enum ScanError {
    /// Neither `app` nor `src/app` exists under the project.
    AppDirectoryNotFound,
    /// A page file does not lie below the route root.
    OutsideAppDirectory,
    /// A page file does not lie below the project root.
    OutsideProject,
}

impl ScanError {
    /// A sentence describing the failure.
    pub fn message(&self) -> (s: String)
        ensures
            s@ == match *self {
                ScanError::AppDirectoryNotFound => "Could not find app directory in project"@,
                ScanError::OutsideAppDirectory => "Page file is not inside the app directory"@,
                ScanError::OutsideProject => "Page file is not inside the project"@,
            },
    {
        match self {
            ScanError::AppDirectoryNotFound => "Could not find app directory in project".to_owned(),
            ScanError::OutsideAppDirectory => "Page file is not inside the app directory".to_owned(),
            ScanError::OutsideProject => "Page file is not inside the project".to_owned(),
        }
    }
}

/// A piece between separators counts as a segment unless it is empty or `.`.
pub open spec fn is_segment(piece: Seq<char>) -> bool {
    piece.len() > 0 && piece != seq!['.']
}

/// `is_segment` as a predicate value.
pub open spec fn segment_filter() -> spec_fn(Seq<char>) -> bool {
    |piece: Seq<char>| is_segment(piece)
}

/// The segments of a path, in order.
pub open spec fn segments(path: Seq<char>) -> Seq<Seq<char>> {
    split_on(path, '/').filter(segment_filter())
}

/// A path is absolute when it begins with the separator.
pub open spec fn is_absolute(path: Seq<char>) -> bool {
    path.len() > 0 && path[0] == '/'
}

/// The segments of the directory that holds the file at `path`.
pub open spec fn directory_of(path: Seq<char>) -> Seq<Seq<char>> {
    let all = segments(path);
    if all.len() == 0 {
        all
    } else {
        all.drop_last()
    }
}

/// The last segment of a path, if it has one.
pub open spec fn file_name(path: Seq<char>) -> Option<Seq<char>> {
    let all = segments(path);
    if all.len() == 0 {
        None
    } else {
        Some(all.last())
    }
}

/// A route group: a segment wrapped in parentheses.
pub open spec fn is_group(segment: Seq<char>) -> bool {
    segment.len() > 0 && segment.first() == '(' && segment.last() == ')'
}

/// A dynamic segment: one wrapped in square brackets.
pub open spec fn is_dynamic(segment: Seq<char>) -> bool {
    segment.len() > 0 && segment.first() == '[' && segment.last() == ']'
}

/// The route component a segment stands for: a dynamic segment loses its
/// brackets and gains a leading `:`, any other segment is kept as it is.
pub open spec fn route_part(segment: Seq<char>) -> Seq<char> {
    if is_dynamic(segment) {
        seq![':'] + segment.subrange(1, segment.len() - 1)
    } else {
        segment
    }
}

/// The route components of a list of segments: groups are dropped, the
/// others translated in order.
pub open spec fn route_parts(segs: Seq<Seq<char>>) -> Seq<Seq<char>>
    decreases segs.len(),
{
    if segs.len() == 0 {
        Seq::<Seq<char>>::empty()
    } else if is_group(segs.last()) {
        route_parts(segs.drop_last())
    } else {
        route_parts(segs.drop_last()).push(route_part(segs.last()))
    }
}

/// The route for the directory levels `segs` below the route root.
pub open spec fn route_of(segs: Seq<Seq<char>>) -> Seq<char> {
    seq!['/'] + join(route_parts(segs), seq!['/'])
}

/// The segments of `path` that follow those of `root`, if `path` lies at
/// or below `root`.
pub open spec fn below(root: Seq<char>, path: Seq<char>) -> Option<Seq<Seq<char>>> {
    if is_absolute(root) == is_absolute(path) && segments(root).is_prefix_of(segments(path)) {
        Some(segments(path).skip(segments(root).len() as int))
    } else {
        None
    }
}

/// `path` written relative to `root`, if it lies at or below `root`.
pub open spec fn relative_to(root: Seq<char>, path: Seq<char>) -> Option<Seq<char>> {
    match below(root, path) {
        Some(rest) => Some(join(rest, seq!['/'])),
        None => None,
    }
}

/// The route of the page file at `page_path`, if its directory lies at or
/// below the route root `app_dir`.
pub open spec fn page_route(app_dir: Seq<char>, page_path: Seq<char>) -> Option<Seq<char>> {
    let dir = directory_of(page_path);
    let root = segments(app_dir);
    if is_absolute(app_dir) == is_absolute(page_path) && root.is_prefix_of(dir) {
        Some(route_of(dir.skip(root.len() as int)))
    } else {
        None
    }
}

/// The file is named like a page.
pub open spec fn page_file(path: Seq<char>) -> bool {
    file_name(path) matches Some(name) && (name == "page.tsx"@ || name == "page.js"@ || name
        == "page.jsx"@)
}

/// A segment that hides everything below it from the scan.
pub open spec fn hidden_segment(segment: Seq<char>) -> bool {
    segment == "api"@ || (segment.len() > 0 && segment[0] == '_')
}

/// The path runs through an `api` directory or a name starting with `_`.
pub open spec fn excluded_path(path: Seq<char>) -> bool {
    ||| occurs_in(path, "/api/"@)
    ||| occurs_in(path, "/_"@)
    ||| exists|i: int| 0 <= i < segments(path).len() && hidden_segment(#[trigger] segments(path)[i])
}

/// `name` appended to the directory path `base`.
pub open spec fn join_path(base: Seq<char>, name: Seq<char>) -> Seq<char> {
    if base.len() == 0 {
        name
    } else if base.last() == '/' {
        base + name
    } else {
        base + seq!['/'] + name
    }
}

/// Where the route root is, given which candidates exist.
pub open spec fn app_directory(project: Seq<char>, has_app: bool, has_src_app: bool) -> Option<
    Seq<char>,
> {
    if has_app {
        Some(join_path(project, "app"@))
    } else if has_src_app {
        Some(join_path(join_path(project, "src"@), "app"@))
    } else {
        None
    }
}

/// A segment as a directory or file name can be: not empty, not `.`, and
/// free of separators.
pub open spec fn is_name(segment: Seq<char>) -> bool {
    is_segment(segment) && !segment.contains('/')
}

/// Every text of the sequence is a name.
pub open spec fn all_names(segs: Seq<Seq<char>>) -> bool {
    forall|i: int| 0 <= i < segs.len() ==> is_name(#[trigger] segs[i])
}

/// The path made of the given names.
pub open spec fn path_of(segs: Seq<Seq<char>>) -> Seq<char> {
    join(segs, seq!['/'])
}

/// The empty path has no segments.
pub proof fn lemma_segments_of_nothing()
    ensures
        segments(Seq::<char>::empty()) == Seq::<Seq<char>>::empty(),
{
    let nothing = Seq::<char>::empty();
    lemma_split_on_plain(nothing, '/');
    Seq::<Seq<char>>::empty().lemma_filter_push(nothing, segment_filter());
    assert(Seq::<Seq<char>>::empty().push(nothing) =~= seq![nothing]);
    assert(Seq::<Seq<char>>::empty().filter(segment_filter()) =~= Seq::<Seq<char>>::empty()) by {
        reveal(Seq::filter);
    }
}

/// A name is its own single segment.
pub proof fn lemma_segments_of_name(name: Seq<char>)
    requires
        is_name(name),
    ensures
        segments(name) == seq![name],
{
    lemma_split_on_plain(name, '/');
    Seq::<Seq<char>>::empty().lemma_filter_push(name, segment_filter());
    assert(Seq::<Seq<char>>::empty().push(name) =~= seq![name]);
    assert(Seq::<Seq<char>>::empty().filter(segment_filter()) =~= Seq::<Seq<char>>::empty()) by {
        reveal(Seq::filter);
    }
}

/// The segments of two paths put together with a separator are those of
/// the first followed by those of the second.
pub proof fn lemma_segments_concat(a: Seq<char>, b: Seq<char>)
    ensures
        segments(a + seq!['/'] + b) == segments(a) + segments(b),
{
    lemma_split_on_concat(a, b, '/');
    Seq::filter_distributes_over_add(split_on(a, '/'), split_on(b, '/'), segment_filter());
}

/// The segments of a path made of names are those names.
pub proof fn lemma_segments_of_path(segs: Seq<Seq<char>>)
    requires
        all_names(segs),
    ensures
        segments(path_of(segs)) == segs,
    decreases segs.len(),
{
    if segs.len() == 0 {
        lemma_segments_of_nothing();
        assert(segs =~= Seq::<Seq<char>>::empty());
    } else if segs.len() == 1 {
        lemma_segments_of_name(segs[0]);
        assert(segs =~= seq![segs[0]]);
    } else {
        let rest = segs.drop_last();
        assert forall|i: int| 0 <= i < rest.len() implies is_name(#[trigger] rest[i]) by {
            assert(rest[i] == segs[i]);
        }
        lemma_segments_of_path(rest);
        lemma_segments_of_name(segs.last());
        lemma_segments_concat(path_of(rest), segs.last());
        assert(rest + seq![segs.last()] =~= segs);
    }
}

/// A path made of names is relative.
pub proof fn lemma_path_of_names_is_relative(segs: Seq<Seq<char>>)
    requires
        all_names(segs),
    ensures
        !is_absolute(path_of(segs)),
    decreases segs.len(),
{
    if segs.len() == 1 {
        assert(segs[0].contains(segs[0][0]));
    } else if segs.len() > 1 {
        let rest = segs.drop_last();
        assert forall|i: int| 0 <= i < rest.len() implies is_name(#[trigger] rest[i]) by {
            assert(rest[i] == segs[i]);
        }
        lemma_path_of_names_is_relative(rest);
        lemma_path_of_names_is_nonempty(rest);
        assert(path_of(segs)[0] == path_of(rest)[0]);
    }
}

/// A path made of at least one name is not empty.
pub proof fn lemma_path_of_names_is_nonempty(segs: Seq<Seq<char>>)
    requires
        all_names(segs),
        segs.len() >= 1,
    ensures
        path_of(segs).len() >= 1,
    decreases segs.len(),
{
    if segs.len() == 1 {
        assert(is_name(segs[0]));
    }
}

/// The route of a page file spelled out: with the route root made of the
/// names `root`, the directories `dirs` below it and the file `file` in the
/// last of them, the route is that of `dirs`.
pub proof fn lemma_route_of_page(root: Seq<Seq<char>>, dirs: Seq<Seq<char>>, file: Seq<char>)
    requires
        all_names(root),
        all_names(dirs),
        is_name(file),
    ensures
        page_route(path_of(root), path_of(root + dirs + seq![file])) == Some(route_of(dirs)),
{
    let whole = root + dirs + seq![file];
    assert forall|i: int| 0 <= i < whole.len() implies is_name(#[trigger] whole[i]) by {
        if i < root.len() {
            assert(whole[i] == root[i]);
        } else if i < root.len() + dirs.len() {
            assert(whole[i] == dirs[i - root.len()]);
        }
    }
    lemma_segments_of_path(root);
    lemma_segments_of_path(whole);
    lemma_path_of_names_is_relative(root);
    lemma_path_of_names_is_relative(whole);
    assert(whole.drop_last() =~= root + dirs);
    assert(root =~= (root + dirs).subrange(0, root.len() as int));
    assert((root + dirs).skip(root.len() as int) =~= dirs);
}

/// Route components of a concatenation are the concatenated components.
pub proof fn lemma_route_parts_concat(a: Seq<Seq<char>>, b: Seq<Seq<char>>)
    ensures
        route_parts(a + b) == route_parts(a) + route_parts(b),
    decreases b.len(),
{
    if b.len() == 0 {
        assert(a + b =~= a);
        assert(route_parts(a) + route_parts(b) =~= route_parts(a));
    } else {
        lemma_route_parts_concat(a, b.drop_last());
        assert((a + b).drop_last() =~= a + b.drop_last());
        assert((a + b).last() == b.last());
        if !is_group(b.last()) {
            assert(route_parts(a + b) =~= route_parts(a) + route_parts(b));
        }
    }
}

/// Every route begins with `/`.
pub proof fn lemma_route_starts_with_slash(segs: Seq<Seq<char>>)
    ensures
        route_of(segs).len() >= 1,
        route_of(segs)[0] == '/',
{
}

/// A route group contributes nothing: taking it out of the directory levels
/// leaves the route unchanged.
pub proof fn lemma_group_contributes_nothing(
    before: Seq<Seq<char>>,
    group: Seq<char>,
    after: Seq<Seq<char>>,
)
    requires
        is_group(group),
    ensures
        route_of(before + seq![group] + after) == route_of(before + after),
{
    lemma_route_parts_concat(before + seq![group], after);
    lemma_route_parts_concat(before, after);
    assert((before + seq![group]).drop_last() =~= before);
}

/// Directories made of route groups only give the root route.
pub proof fn lemma_only_groups_give_root(segs: Seq<Seq<char>>)
    requires
        forall|i: int| 0 <= i < segs.len() ==> is_group(segs[i]),
    ensures
        route_of(segs) == seq!['/'],
{
    lemma_only_groups_have_no_parts(segs);
    assert(route_of(segs) =~= seq!['/']);
}

proof fn lemma_only_groups_have_no_parts(segs: Seq<Seq<char>>)
    requires
        forall|i: int| 0 <= i < segs.len() ==> is_group(segs[i]),
    ensures
        route_parts(segs).len() == 0,
    decreases segs.len(),
{
    if segs.len() > 0 {
        lemma_only_groups_have_no_parts(segs.drop_last());
    }
}

/// A dynamic segment `[x]` stands for `:x`; this covers catch-all segments,
/// whose `x` begins with `...`.
pub proof fn lemma_dynamic_segment(name: Seq<char>)
    ensures
        is_dynamic(seq!['['] + name + seq![']']),
        !is_group(seq!['['] + name + seq![']']),
        route_part(seq!['['] + name + seq![']']) == seq![':'] + name,
{
    let wrapped = seq!['['] + name + seq![']'];
    assert(wrapped.subrange(1, wrapped.len() - 1) =~= name);
}

/// A catch-all segment `[...x]` stands for `:...x`.
pub proof fn lemma_catch_all_segment(name: Seq<char>)
    ensures
        route_part(seq!['[', '.', '.', '.'] + name + seq![']']) == seq![':', '.', '.', '.'] + name,
{
    let dotted = seq!['.', '.', '.'] + name;
    lemma_dynamic_segment(dotted);
    assert(seq!['['] + dotted + seq![']'] =~= seq!['[', '.', '.', '.'] + name + seq![']']);
    assert(seq![':'] + dotted =~= seq![':', '.', '.', '.'] + name);
}

/// A lone dynamic directory `[x]` below the root gives the route `/:x`.
pub proof fn lemma_dynamic_route(name: Seq<char>)
    ensures
        route_of(seq![seq!['['] + name + seq![']']]) == seq!['/', ':'] + name,
{
    let wrapped = seq!['['] + name + seq![']'];
    lemma_dynamic_segment(name);
    let segs = seq![wrapped];
    assert(segs.drop_last() =~= Seq::<Seq<char>>::empty());
    assert(route_parts(segs.drop_last()) =~= Seq::<Seq<char>>::empty());
    assert(route_parts(segs) =~= seq![seq![':'] + name]);
    assert(route_of(segs) =~= seq!['/', ':'] + name);
}

/// The segments of a path.
pub fn path_segments(path: &Vec<char>) -> (segs: Vec<Vec<char>>)
    ensures
        seqs(segs@) == segments(path@),
{
    let pieces = split(path, '/');
    let mut segs: Vec<Vec<char>> = Vec::new();
    let mut i: usize = 0;
    assert(seqs(pieces@).take(0) =~= Seq::<Seq<char>>::empty());
    assert(Seq::<Seq<char>>::empty().filter(segment_filter()) =~= Seq::<Seq<char>>::empty()) by {
        reveal(Seq::filter);
    }
    while i < pieces.len()
        invariant
            i <= pieces.len(),
            seqs(segs@) == seqs(pieces@).take(i as int).filter(segment_filter()),
        decreases pieces.len() - i,
    {
        let piece = &pieces[i];
        proof {
            let done = seqs(pieces@).take(i as int);
            done.lemma_filter_push(piece@, segment_filter());
            assert(seqs(pieces@).take(i + 1) =~= done.push(piece@));
            if piece@.len() == 1 && piece@[0] == '.' {
                assert(piece@ =~= seq!['.']);
            }
        }
        if piece.len() > 0 && !(piece.len() == 1 && piece[0] == '.') {
            let ghost before = seqs(segs@);
            segs.push(copy_chars(piece));
            assert(seqs(segs@) =~= before.push(piece@));
        }
        i += 1;
    }
    assert(seqs(pieces@).take(pieces.len() as int) =~= seqs(pieces@));
    segs
}

/// Whether the text begins with `first` and ends with `last`.
fn is_wrapped(segment: &Vec<char>, first: char, last: char) -> (r: bool)
    ensures
        r == (segment@.len() > 0 && segment@.first() == first && segment@.last() == last),
{
    segment.len() > 0 && segment[0] == first && segment[segment.len() - 1] == last
}

/// The route component a segment stands for.
fn translate_segment(segment: &Vec<char>) -> (part: Vec<char>)
    ensures
        part@ == route_part(segment@),
{
    if is_wrapped(segment, '[', ']') {
        let mut part: Vec<char> = Vec::new();
        part.push(':');
        let mut i: usize = 1;
        while i < segment.len() - 1
            invariant
                1 <= i <= segment.len() - 1,
                part@ == seq![':'] + segment@.subrange(1, i as int),
            decreases segment.len() - i,
        {
            part.push(segment[i]);
            assert(segment@.subrange(1, i + 1) =~= segment@.subrange(1, i as int).push(
                segment@[i as int],
            ));
            i += 1;
        }
        part
    } else {
        copy_chars(segment)
    }
}

/// The route components of the segments `all[from..to]`.
fn route_components(all: &Vec<Vec<char>>, from: usize, to: usize) -> (parts: Vec<Vec<char>>)
    requires
        from <= to <= all.len(),
    ensures
        seqs(parts@) == route_parts(seqs(all@).subrange(from as int, to as int)),
{
    let mut parts: Vec<Vec<char>> = Vec::new();
    let mut i: usize = from;
    assert(seqs(all@).subrange(from as int, from as int) =~= Seq::<Seq<char>>::empty());
    while i < to
        invariant
            from <= i <= to <= all.len(),
            seqs(parts@) == route_parts(seqs(all@).subrange(from as int, i as int)),
        decreases to - i,
    {
        let segment = &all[i];
        proof {
            let next = seqs(all@).subrange(from as int, i + 1);
            assert(next.drop_last() =~= seqs(all@).subrange(from as int, i as int));
            assert(next.last() == segment@);
        }
        if !is_wrapped(segment, '(', ')') {
            let ghost before = seqs(parts@);
            parts.push(translate_segment(segment));
            assert(seqs(parts@) =~= before.push(route_part(segment@)));
        }
        i += 1;
    }
    parts
}

/// Whether the first `limit` segments of `all` begin with `prefix`.
fn segments_start_with(all: &Vec<Vec<char>>, limit: usize, prefix: &Vec<Vec<char>>) -> (r: bool)
    requires
        limit <= all.len(),
    ensures
        r == seqs(prefix@).is_prefix_of(seqs(all@).take(limit as int)),
{
    if prefix.len() > limit {
        return false;
    }
    let ghost dir = seqs(all@).take(limit as int);
    let mut i: usize = 0;
    while i < prefix.len()
        invariant
            i <= prefix.len() <= limit <= all.len(),
            dir == seqs(all@).take(limit as int),
            forall|j: int| 0 <= j < i ==> seqs(prefix@)[j] == dir[j],
        decreases prefix.len() - i,
    {
        if !same_chars(&prefix[i], &all[i]) {
            assert(seqs(prefix@)[i as int] != dir.subrange(0, prefix.len() as int)[i as int]);
            return false;
        }
        i += 1;
    }
    assert(seqs(prefix@) =~= dir.subrange(0, prefix.len() as int));
    true
}

/// Whether the path begins with the separator.
fn starts_at_root(path: &Vec<char>) -> (r: bool)
    ensures
        r == is_absolute(path@),
{
    path.len() > 0 && path[0] == '/'
}

/// Translates the directory of a page file into its route.
///
/// Fails when the directory does not lie at or below the route root.
pub fn path_to_route(app_dir: &str, page_path: &str) -> (r: Result<String, ScanError>)
    ensures
        match r {
            Ok(route) => page_route(app_dir@, page_path@) == Some(route@),
            Err(e) => e == ScanError::OutsideAppDirectory && page_route(app_dir@, page_path@)
                is None,
        },
        r matches Ok(route) ==> route@.len() >= 1 && route@[0] == '/',
{
    let root_chars = chars_of(app_dir);
    let page_chars = chars_of(page_path);
    let root = path_segments(&root_chars);
    let all = path_segments(&page_chars);
    let dir_len: usize = if all.len() == 0 {
        0
    } else {
        all.len() - 1
    };
    assert(directory_of(page_path@) =~= seqs(all@).take(dir_len as int));
    if starts_at_root(&root_chars) != starts_at_root(&page_chars) {
        return Err(ScanError::OutsideAppDirectory);
    }
    if !segments_start_with(&all, dir_len, &root) {
        return Err(ScanError::OutsideAppDirectory);
    }
    let parts = route_components(&all, root.len(), dir_len);
    assert(seqs(all@).take(dir_len as int).skip(root.len() as int) =~= seqs(all@).subrange(
        root.len() as int,
        dir_len as int,
    ));
    let mut sep: Vec<char> = Vec::new();
    sep.push('/');
    let mut route: Vec<char> = Vec::new();
    route.push('/');
    let joined = join_chars(&parts, &sep);
    append_chars(&mut route, &joined);
    assert(sep@ =~= seq!['/']);
    assert(route@ =~= seq!['/'] + joined@);
    Ok(string_of(&route))
}

/// Writes `path` relative to `root`; `None` when `path` does not lie at or
/// below `root`.
pub fn relative_path(root: &str, path: &str) -> (r: Option<String>)
    ensures
        match r {
            Some(rest) => relative_to(root@, path@) == Some(rest@),
            None => relative_to(root@, path@) is None,
        },
{
    let root_chars = chars_of(root);
    let path_chars = chars_of(path);
    let base = path_segments(&root_chars);
    let all = path_segments(&path_chars);
    assert(seqs(all@).take(all.len() as int) =~= seqs(all@));
    if starts_at_root(&root_chars) != starts_at_root(&path_chars) {
        return None;
    }
    if !segments_start_with(&all, all.len(), &base) {
        return None;
    }
    let mut rest: Vec<Vec<char>> = Vec::new();
    let mut i: usize = base.len();
    while i < all.len()
        invariant
            base.len() <= i <= all.len(),
            seqs(rest@) == seqs(all@).subrange(base.len() as int, i as int),
        decreases all.len() - i,
    {
        let ghost before = seqs(rest@);
        rest.push(copy_chars(&all[i]));
        assert(seqs(rest@) =~= before.push(all@[i as int]@));
        i += 1;
    }
    assert(seqs(all@).skip(base.len() as int) =~= seqs(all@).subrange(
        base.len() as int,
        all.len() as int,
    ));
    let mut sep: Vec<char> = Vec::new();
    sep.push('/');
    assert(sep@ =~= seq!['/']);
    let joined = join_chars(&rest, &sep);
    Some(string_of(&joined))
}

/// Whether the file at `path` is a page file: its name is exactly one of
/// `page.tsx`, `page.js`, `page.jsx`.
pub fn is_page_file(path: &str) -> (r: bool)
    ensures
        r == page_file(path@),
{
    let all = path_segments(&chars_of(path));
    if all.len() == 0 {
        return false;
    }
    let name = &all[all.len() - 1];
    assert(seqs(all@).last() == name@);
    same_chars(name, &chars_of("page.tsx")) || same_chars(name, &chars_of("page.js"))
        || same_chars(name, &chars_of("page.jsx"))
}

/// Whether one segment hides what lies below it.
fn is_hidden_segment(segment: &Vec<char>) -> (r: bool)
    ensures
        r == hidden_segment(segment@),
{
    same_chars(segment, &chars_of("api")) || (segment.len() > 0 && segment[0] == '_')
}

/// Whether a page file is left out of the scan because of where it lies.
pub fn is_excluded_path(path: &str) -> (r: bool)
    ensures
        r == excluded_path(path@),
{
    let chars = chars_of(path);
    if contains(&chars, &chars_of("/api/")) || contains(&chars, &chars_of("/_")) {
        return true;
    }
    let all = path_segments(&chars);
    let mut i: usize = 0;
    while i < all.len()
        invariant
            i <= all.len(),
            seqs(all@) == segments(path@),
            forall|j: int| 0 <= j < i ==> !hidden_segment(#[trigger] segments(path@)[j]),
        decreases all.len() - i,
    {
        if is_hidden_segment(&all[i]) {
            assert(hidden_segment(segments(path@)[i as int]));
            return true;
        }
        i += 1;
    }
    false
}

/// Appends `name` to the directory path `base`.
fn push_path(base: &Vec<char>, name: &Vec<char>) -> (out: Vec<char>)
    ensures
        out@ == join_path(base@, name@),
{
    let mut out = copy_chars(base);
    if base.len() > 0 && base[base.len() - 1] != '/' {
        out.push('/');
    }
    append_chars(&mut out, name);
    assert(out@ =~= join_path(base@, name@));
    out
}

/// Chooses the route root: `app` under the project if it exists, else
/// `src/app` if that exists, else nothing.
pub fn find_app_directory(project_path: &str, has_app: bool, has_src_app: bool) -> (r: Result<
    String,
    ScanError,
>)
    ensures
        match r {
            Ok(dir) => app_directory(project_path@, has_app, has_src_app) == Some(dir@),
            Err(e) => e == ScanError::AppDirectoryNotFound && app_directory(
                project_path@,
                has_app,
                has_src_app,
            ) is None,
        },
{
    let project = chars_of(project_path);
    let app = chars_of("app");
    if has_app {
        return Ok(string_of(&push_path(&project, &app)));
    }
    if has_src_app {
        let src = push_path(&project, &chars_of("src"));
        return Ok(string_of(&push_path(&src, &app)));
    }
    Err(ScanError::AppDirectoryNotFound)
}

} // verus!
