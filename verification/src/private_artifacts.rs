//! Safety decisions for private artifact output directories: which
//! requested, configured and resolved paths are acceptable, and how artifact
//! file-name prefixes are sanitised. Reading the environment and the file
//! system is left to the caller.

use vstd::prelude::*;
use crate::error::{ErrorView, InterspireError};
use crate::text::{
    copy_range, extend_str, from_chars, is_alnum, split, split_chars, to_chars, trim, trim_chars,
    trim_end_char, trim_matches_char, trim_matches_chars, trim_start_char,
};

verus! {

broadcast use crate::text::lemma_char_vec_deep_view;

pub const RENDER_OUTPUT_DIR_ENV: &'static str = "INTERSPIRE_RENDER_ARTIFACT_OUTPUT_DIR";

pub const RENDER_OUTPUT_ROOTS_ENV: &'static str = "INTERSPIRE_RENDER_ARTIFACT_ROOTS";

// ---------------------------------------------------------------------------
// Unix path components (`std::path::Path::components`)
// ---------------------------------------------------------------------------

pub open spec fn dot() -> Seq<char> {
    seq!['.']
}

pub open spec fn dot_dot() -> Seq<char> {
    seq!['.', '.']
}

/// The component that stands for the root directory.
pub open spec fn root_component() -> Seq<char> {
    seq!['/']
}

/// `Path::is_absolute` on Unix: the path starts with `/`.
pub open spec fn is_absolute(p: Seq<char>) -> bool {
    p.len() > 0 && p[0] == '/'
}

/// Some `/`-separated piece of `raw` is `.` or `..`.
pub open spec fn has_dot_component(raw: Seq<char>) -> bool {
    exists|i: int|
        0 <= i < split(raw, '/').len() && (#[trigger] split(raw, '/')[i] == dot() || split(
            raw,
            '/',
        )[i] == dot_dot())
}

/// The pieces that name components: empty pieces (repeated or trailing
/// separators) and `.` pieces are dropped.
pub open spec fn normal_pieces(pieces: Seq<Seq<char>>) -> Seq<Seq<char>>
    decreases pieces.len(),
{
    if pieces.len() == 0 {
        seq![]
    } else {
        let r = normal_pieces(pieces.drop_last());
        let p = pieces.last();
        if p.len() == 0 || p == dot() {
            r
        } else {
            r.push(p)
        }
    }
}

/// The components of a Unix path: the root, or a leading `.`, then the
/// non-empty pieces other than `.`.
pub open spec fn components(p: Seq<char>) -> Seq<Seq<char>> {
    let pieces = split(p, '/');
    if is_absolute(p) {
        seq![root_component()] + normal_pieces(pieces.drop_first())
    } else if pieces.len() > 0 && pieces[0] == dot() {
        seq![dot()] + normal_pieces(pieces.drop_first())
    } else {
        normal_pieces(pieces)
    }
}

/// `Path` equality: the same components.
pub open spec fn path_eq(a: Seq<char>, b: Seq<char>) -> bool {
    components(a) == components(b)
}

/// `Path::starts_with`: the components of `base` begin those of `p`.
pub open spec fn path_starts_with(p: Seq<char>, base: Seq<char>) -> bool {
    let cp = components(p);
    let cb = components(base);
    cb.len() <= cp.len() && cp.take(cb.len() as int) == cb
}

pub fn raw_path_has_dot_component(raw: &str) -> (b: bool)
    ensures
        b == has_dot_component(raw@),
{
    let chars = to_chars(raw);
    let pieces = split_chars(chars.as_slice(), '/');
    let ghost ps = pieces.deep_view();
    let n = pieces.len();
    for i in 0..n
        invariant
            n == ps.len(),
            ps == pieces.deep_view(),
            ps == split(raw@, '/'),
            forall|k: int| 0 <= k < i ==> !(#[trigger] ps[k] == dot() || ps[k] == dot_dot()),
    {
        let piece = &pieces[i];
        assert(piece@ == ps[i as int]);
        let is_dot = piece.len() == 1 && piece[0] == '.';
        let is_dot_dot = piece.len() == 2 && piece[0] == '.' && piece[1] == '.';
        if is_dot || is_dot_dot {
            proof {
                if is_dot {
                    assert(piece@ =~= dot());
                } else {
                    assert(piece@ =~= dot_dot());
                }
            }
            return true;
        }
        assert(piece@ != dot());
        assert(piece@ != dot_dot());
    }
    false
}

fn is_dot_piece(piece: &Vec<char>) -> (b: bool)
    ensures
        b == (piece@ == dot()),
{
    let r = piece.len() == 1 && piece[0] == '.';
    proof {
        if r {
            assert(piece@ =~= dot());
        }
    }
    r
}

fn normal_pieces_exec(pieces: &Vec<Vec<char>>, from: usize) -> (r: Vec<Vec<char>>)
    requires
        from <= pieces@.len(),
    ensures
        r.deep_view() == normal_pieces(pieces.deep_view().skip(from as int)),
{
    let ghost ps = pieces.deep_view().skip(from as int);
    let n = pieces.len();
    let mut out: Vec<Vec<char>> = Vec::new();
    assert(ps.take(0) =~= Seq::<Seq<char>>::empty());
    assert(out.deep_view() =~= Seq::<Seq<char>>::empty());
    let mut i = from;
    while i < n
        invariant
            n == pieces@.len(),
            from <= i <= n,
            ps == pieces.deep_view().skip(from as int),
            out.deep_view() == normal_pieces(ps.take(i - from)),
        decreases n - i,
    {
        assert(ps.take(i - from + 1).drop_last() == ps.take(i - from));
        assert(ps.take(i - from + 1).last() == pieces@[i as int]@);
        let piece = &pieces[i];
        if piece.len() > 0 && !is_dot_piece(piece) {
            let copy = copy_range(piece.as_slice(), 0, piece.len());
            assert(copy@ =~= piece@);
            let ghost before = out.deep_view();
            assert(copy.deep_view() =~= copy@);
            out.push(copy);
            assert(out.deep_view() =~= before.push(piece@));
        }
        i = i + 1;
    }
    assert(ps.take(n - from) == ps);
    out
}

/// The components of a path.
pub fn path_components(p: &[char]) -> (r: Vec<Vec<char>>)
    ensures
        r.deep_view() == components(p@),
{
    let pieces = split_chars(p, '/');
    proof {
        crate::ip::lemma_split_acc_nonempty(seq![], p@, '/');
    }
    assert(pieces.deep_view().skip(1) == pieces.deep_view().drop_first());
    assert(pieces.deep_view().skip(0) == pieces.deep_view());
    if p.len() > 0 && p[0] == '/' {
        let mut r: Vec<Vec<char>> = Vec::new();
        r.push(vec!['/']);
        let rest = normal_pieces_exec(&pieces, 1);
        let ghost head = r.deep_view();
        assert(head =~~= seq![root_component()]);
        let mut rest = rest;
        r.append(&mut rest);
        assert(r.deep_view() =~= head + normal_pieces(pieces.deep_view().drop_first()));
        r
    } else if is_dot_piece(&pieces[0]) {
        let mut r: Vec<Vec<char>> = Vec::new();
        r.push(vec!['.']);
        let rest = normal_pieces_exec(&pieces, 1);
        let ghost head = r.deep_view();
        assert(head =~~= seq![dot()]);
        let mut rest = rest;
        r.append(&mut rest);
        assert(r.deep_view() =~= head + normal_pieces(pieces.deep_view().drop_first()));
        r
    } else {
        normal_pieces_exec(&pieces, 0)
    }
}

fn component_lists_prefix(a: &Vec<Vec<char>>, b: &Vec<Vec<char>>) -> (r: bool)
    ensures
        r == (b.deep_view().len() <= a.deep_view().len() && a.deep_view().take(
            b.deep_view().len() as int,
        ) == b.deep_view()),
{
    let n = b.len();
    if n > a.len() {
        return false;
    }
    for i in 0..n
        invariant
            n == b@.len(),
            n <= a@.len(),
            forall|k: int| 0 <= k < i ==> a.deep_view()[k] == b.deep_view()[k],
    {
        if !crate::text::chars_eq(a[i].as_slice(), b[i].as_slice()) {
            assert(a.deep_view().take(n as int)[i as int] != b.deep_view()[i as int]);
            return false;
        }
    }
    assert(a.deep_view().take(n as int) =~= b.deep_view());
    true
}

/// `Path::starts_with`.
pub fn path_starts_with_exec(p: &[char], base: &[char]) -> (r: bool)
    ensures
        r == path_starts_with(p@, base@),
{
    let cp = path_components(p);
    let cb = path_components(base);
    component_lists_prefix(&cp, &cb)
}

/// `Path` equality.
pub fn path_eq_exec(a: &[char], b: &[char]) -> (r: bool)
    ensures
        r == path_eq(a@, b@),
{
    let ca = path_components(a);
    let cb = path_components(b);
    let r = ca.len() == cb.len() && component_lists_prefix(&ca, &cb);
    proof {
        assert(ca.deep_view().len() == ca@.len());
        assert(cb.deep_view().len() == cb@.len());
        if ca.len() == cb.len() {
            assert(ca.deep_view().take(cb.deep_view().len() as int) == ca.deep_view());
        }
    }
    r
}

// ---------------------------------------------------------------------------
// Output-directory decisions
// ---------------------------------------------------------------------------

/// The outcome `expected` (`None` for success, `Some(m)` for a safety error
/// with message `m`) is what `r` holds.
pub open spec fn outcome_is(r: Result<(), InterspireError>, expected: Option<Seq<char>>) -> bool {
    match (r, expected) {
        (Ok(()), None) => true,
        (Err(InterspireError::Safety(m)), Some(e)) => m@ == e,
        _ => false,
    }
}

fn safety_error(parts: &Vec<char>) -> (e: InterspireError)
    ensures
        e matches InterspireError::Safety(m) && m@ == parts@,
{
    InterspireError::Safety(from_chars(parts.as_slice()))
}

pub open spec fn render_request_disabled_message() -> Seq<char> {
    "render artifact output_dir request values are disabled; configure INTERSPIRE_RENDER_ARTIFACT_OUTPUT_DIR under INTERSPIRE_RENDER_ARTIFACT_ROOTS"@
}

/// A render request must not name its own output directory.
pub open spec fn render_request_outcome(raw: Option<Seq<char>>) -> Option<Seq<char>> {
    match raw {
        Some(v) => if trim(v).len() > 0 {
            Some(render_request_disabled_message())
        } else {
            None
        },
        None => None,
    }
}

/// Refuses an output directory named in a render request: only the
/// configured directory may be used.
pub fn reject_render_output_dir_request(raw: Option<&str>) -> (r: Result<(), InterspireError>)
    ensures
        outcome_is(
            r,
            render_request_outcome(
                match raw {
                    Some(v) => Some(v@),
                    None => None,
                },
            ),
        ),
{
    if let Some(value) = raw {
        let chars = to_chars(value);
        if trim_chars(chars.as_slice()).len() > 0 {
            return Err(
                InterspireError::Safety(
                    String::from_str(
                        "render artifact output_dir request values are disabled; configure INTERSPIRE_RENDER_ARTIFACT_OUTPUT_DIR under INTERSPIRE_RENDER_ARTIFACT_ROOTS",
                    ),
                ),
            );
        }
    }
    Ok(())
}

pub open spec fn output_dir_unset_message(output_dir_env: Seq<char>, label: Seq<char>) -> Seq<char> {
    output_dir_env + " must be set to an approved private "@ + label + " output directory"@
}

pub open spec fn output_dir_not_absolute_message(label: Seq<char>) -> Seq<char> {
    label + " output_dir must be absolute"@
}

pub open spec fn output_dir_dot_message(label: Seq<char>) -> Seq<char> {
    label + " output_dir must not contain dot path components"@
}

/// The configured output directory, or the safety message refusing it.
pub open spec fn requested_output_dir_outcome(
    raw: Option<Seq<char>>,
    output_dir_env: Seq<char>,
    label: Seq<char>,
) -> Result<Seq<char>, Seq<char>> {
    match raw {
        Some(p) => if trim(p).len() == 0 {
            Err(output_dir_unset_message(output_dir_env, label))
        } else if !is_absolute(p) {
            Err(output_dir_not_absolute_message(label))
        } else if has_dot_component(p) {
            Err(output_dir_dot_message(label))
        } else {
            Ok(p)
        },
        None => Err(output_dir_unset_message(output_dir_env, label)),
    }
}

/// Checks the configured output directory (the value of `output_dir_env`):
/// it must be set, absolute and free of `.` and `..` components.
pub fn requested_output_dir(raw: Option<&str>, output_dir_env: &str, label: &str) -> (r: Result<
    String,
    InterspireError,
>)
    ensures
        match requested_output_dir_outcome(
            match raw {
                Some(v) => Some(v@),
                None => None,
            },
            output_dir_env@,
            label@,
        ) {
            Ok(p) => r matches Ok(s) && s@ == p,
            Err(m) => r matches Err(InterspireError::Safety(e)) && e@ == m,
        },
{
    let value = match raw {
        Some(v) => v,
        None => {
            let mut msg: Vec<char> = Vec::new();
            extend_str(&mut msg, output_dir_env);
            extend_str(&mut msg, " must be set to an approved private ");
            extend_str(&mut msg, label);
            extend_str(&mut msg, " output directory");
            return Err(safety_error(&msg));
        },
    };
    let chars = to_chars(value);
    if trim_chars(chars.as_slice()).len() == 0 {
        let mut msg: Vec<char> = Vec::new();
        extend_str(&mut msg, output_dir_env);
        extend_str(&mut msg, " must be set to an approved private ");
        extend_str(&mut msg, label);
        extend_str(&mut msg, " output directory");
        return Err(safety_error(&msg));
    }
    if !(chars.len() > 0 && chars[0] == '/') {
        let mut msg: Vec<char> = Vec::new();
        extend_str(&mut msg, label);
        extend_str(&mut msg, " output_dir must be absolute");
        return Err(safety_error(&msg));
    }
    if raw_path_has_dot_component(value) {
        let mut msg: Vec<char> = Vec::new();
        extend_str(&mut msg, label);
        extend_str(&mut msg, " output_dir must not contain dot path components");
        return Err(safety_error(&msg));
    }
    Ok(String::from_str(value))
}

/// The trimmed, non-empty pieces among `pieces`.
pub open spec fn nonblank_trimmed(pieces: Seq<Seq<char>>) -> Seq<Seq<char>>
    decreases pieces.len(),
{
    if pieces.len() == 0 {
        seq![]
    } else {
        let r = nonblank_trimmed(pieces.drop_last());
        let p = trim(pieces.last());
        if p.len() == 0 {
            r
        } else {
            r.push(p)
        }
    }
}

/// The entries of a `:`-separated root list: trimmed, blanks dropped.
pub open spec fn root_entries(raw: Option<Seq<char>>) -> Seq<Seq<char>> {
    match raw {
        Some(v) => if trim(v).len() == 0 {
            seq![]
        } else {
            nonblank_trimmed(split(v, ':'))
        },
        None => seq![],
    }
}

/// The entries of the configured root list (the value of the roots
/// variable), each still to be checked and resolved.
pub fn output_root_entries(raw: Option<&str>) -> (r: Vec<String>)
    ensures
        r.deep_view() == root_entries(
            match raw {
                Some(v) => Some(v@),
                None => None,
            },
        ),
{
    let value = match raw {
        Some(v) => v,
        None => {
            let r: Vec<String> = Vec::new();
            assert(r.deep_view() =~= Seq::<Seq<char>>::empty());
            return r;
        },
    };
    let chars = to_chars(value);
    let mut out: Vec<String> = Vec::new();
    assert(out.deep_view() =~= Seq::<Seq<char>>::empty());
    if trim_chars(chars.as_slice()).len() == 0 {
        return out;
    }
    let pieces = split_chars(chars.as_slice(), ':');
    let ghost ps = pieces.deep_view();
    let n = pieces.len();
    assert(ps.take(0) =~= Seq::<Seq<char>>::empty());
    for i in 0..n
        invariant
            n == ps.len(),
            ps == pieces.deep_view(),
            out.deep_view() == nonblank_trimmed(ps.take(i as int)),
    {
        assert(ps.take(i + 1).drop_last() == ps.take(i as int));
        assert(ps.take(i + 1).last() == pieces@[i as int]@);
        let trimmed = trim_chars(pieces[i].as_slice());
        if trimmed.len() > 0 {
            let ghost before = out.deep_view();
            out.push(from_chars(trimmed.as_slice()));
            assert(out.deep_view() =~= before.push(trimmed@));
        }
    }
    assert(ps.take(n as int) == ps);
    out
}

pub open spec fn root_entry_outcome(value: Seq<char>, output_roots_env: Seq<char>) -> Option<
    Seq<char>,
> {
    if !is_absolute(value) {
        Some(output_roots_env + " entries must be absolute paths"@)
    } else if has_dot_component(value) {
        Some(output_roots_env + " entries must not contain dot path components"@)
    } else {
        None
    }
}

/// One configured root must be absolute and free of `.` and `..`.
pub fn check_output_root_entry(value: &str, output_roots_env: &str) -> (r: Result<(), InterspireError>)
    ensures
        outcome_is(r, root_entry_outcome(value@, output_roots_env@)),
{
    let chars = to_chars(value);
    if !(chars.len() > 0 && chars[0] == '/') {
        let mut msg: Vec<char> = Vec::new();
        extend_str(&mut msg, output_roots_env);
        extend_str(&mut msg, " entries must be absolute paths");
        return Err(safety_error(&msg));
    }
    if raw_path_has_dot_component(value) {
        let mut msg: Vec<char> = Vec::new();
        extend_str(&mut msg, output_roots_env);
        extend_str(&mut msg, " entries must not contain dot path components");
        return Err(safety_error(&msg));
    }
    Ok(())
}

pub open spec fn roots_missing_message(output_roots_env: Seq<char>) -> Seq<char> {
    output_roots_env + " must list at least one existing private absolute artifact root"@
}

/// At least one root must be configured.
pub fn require_output_roots(roots: &Vec<String>, output_roots_env: &str) -> (r: Result<
    (),
    InterspireError,
>)
    ensures
        outcome_is(
            r,
            if roots@.len() == 0 {
                Some(roots_missing_message(output_roots_env@))
            } else {
                None
            },
        ),
{
    if roots.len() == 0 {
        let mut msg: Vec<char> = Vec::new();
        extend_str(&mut msg, output_roots_env);
        extend_str(&mut msg, " must list at least one existing private absolute artifact root");
        return Err(safety_error(&msg));
    }
    Ok(())
}

/// `path` names one of `roots` itself.
pub open spec fn is_a_root(path: Seq<char>, roots: Seq<Seq<char>>) -> bool {
    exists|i: int| 0 <= i < roots.len() && path_eq(#[trigger] roots[i], path)
}

/// `path` lies within one of `roots` (or is one of them).
pub open spec fn under_a_root(path: Seq<char>, roots: Seq<Seq<char>>) -> bool {
    exists|i: int| 0 <= i < roots.len() && path_starts_with(path, #[trigger] roots[i])
}

pub open spec fn root_itself_message(label: Seq<char>) -> Seq<char> {
    label + " output_dir must be a subdirectory, not an allowed root"@
}

pub open spec fn outside_roots_message(label: Seq<char>, output_roots_env: Seq<char>) -> Seq<char> {
    label + " output_dir must be under one of the private roots listed in "@ + output_roots_env
}

pub open spec fn inside_repository_message(label: Seq<char>) -> Seq<char> {
    label + " artifacts must be outside the repository"@
}

pub open spec fn resolved_outside_message(label: Seq<char>) -> Seq<char> {
    label + " output_dir resolved outside the approved private artifact roots"@
}

fn any_root_equals(path: &[char], roots: &Vec<String>) -> (b: bool)
    ensures
        b == is_a_root(path@, roots.deep_view()),
{
    let n = roots.len();
    for i in 0..n
        invariant
            n == roots@.len(),
            forall|k: int| 0 <= k < i ==> !path_eq(#[trigger] roots.deep_view()[k], path@),
    {
        let root = to_chars(roots[i].as_str());
        assert(root@ == roots.deep_view()[i as int]);
        if path_eq_exec(root.as_slice(), path) {
            return true;
        }
    }
    false
}

fn any_root_contains(path: &[char], roots: &Vec<String>) -> (b: bool)
    ensures
        b == under_a_root(path@, roots.deep_view()),
{
    let n = roots.len();
    for i in 0..n
        invariant
            n == roots@.len(),
            forall|k: int| 0 <= k < i ==> !path_starts_with(path@, #[trigger] roots.deep_view()[k]),
    {
        let root = to_chars(roots[i].as_str());
        assert(root@ == roots.deep_view()[i as int]);
        if path_starts_with_exec(path, root.as_slice()) {
            return true;
        }
    }
    false
}

/// The requested directory must be strictly inside one of the roots.
pub open spec fn under_roots_outcome(
    path: Seq<char>,
    roots: Seq<Seq<char>>,
    label: Seq<char>,
    output_roots_env: Seq<char>,
) -> Option<Seq<char>> {
    if is_a_root(path, roots) {
        Some(root_itself_message(label))
    } else if !under_a_root(path, roots) {
        Some(outside_roots_message(label, output_roots_env))
    } else {
        None
    }
}

/// Checks the requested directory against the approved roots: it must lie
/// within one of them without being one of them.
pub fn check_output_dir_under_roots(
    path: &str,
    roots: &Vec<String>,
    label: &str,
    output_roots_env: &str,
) -> (r: Result<(), InterspireError>)
    ensures
        outcome_is(r, under_roots_outcome(path@, roots.deep_view(), label@, output_roots_env@)),
{
    let chars = to_chars(path);
    if any_root_equals(chars.as_slice(), roots) {
        let mut msg: Vec<char> = Vec::new();
        extend_str(&mut msg, label);
        extend_str(&mut msg, " output_dir must be a subdirectory, not an allowed root");
        return Err(safety_error(&msg));
    }
    if !any_root_contains(chars.as_slice(), roots) {
        let mut msg: Vec<char> = Vec::new();
        extend_str(&mut msg, label);
        extend_str(&mut msg, " output_dir must be under one of the private roots listed in ");
        extend_str(&mut msg, output_roots_env);
        return Err(safety_error(&msg));
    }
    Ok(())
}

/// A resolved (canonical) directory must not be a root itself (when
/// `reject_root`), must lie outside the repository and within a root.
pub open spec fn resolved_outcome(
    resolved: Seq<char>,
    roots: Seq<Seq<char>>,
    repo_root: Seq<char>,
    label: Seq<char>,
    reject_root: bool,
) -> Option<Seq<char>> {
    if reject_root && is_a_root(resolved, roots) {
        Some(root_itself_message(label))
    } else if path_starts_with(resolved, repo_root) {
        Some(inside_repository_message(label))
    } else if !under_a_root(resolved, roots) {
        Some(resolved_outside_message(label))
    } else {
        None
    }
}

/// Checks where a directory resolves to after symbolic links: outside the
/// repository, within an approved root, and (when `reject_root`) not a root
/// itself.
pub fn check_resolved_output_dir(
    resolved: &str,
    roots: &Vec<String>,
    repo_root: &str,
    label: &str,
    reject_root: bool,
) -> (r: Result<(), InterspireError>)
    ensures
        outcome_is(
            r,
            resolved_outcome(resolved@, roots.deep_view(), repo_root@, label@, reject_root),
        ),
{
    let chars = to_chars(resolved);
    if reject_root && any_root_equals(chars.as_slice(), roots) {
        let mut msg: Vec<char> = Vec::new();
        extend_str(&mut msg, label);
        extend_str(&mut msg, " output_dir must be a subdirectory, not an allowed root");
        return Err(safety_error(&msg));
    }
    let repo = to_chars(repo_root);
    if path_starts_with_exec(chars.as_slice(), repo.as_slice()) {
        let mut msg: Vec<char> = Vec::new();
        extend_str(&mut msg, label);
        extend_str(&mut msg, " artifacts must be outside the repository");
        return Err(safety_error(&msg));
    }
    if !any_root_contains(chars.as_slice(), roots) {
        let mut msg: Vec<char> = Vec::new();
        extend_str(&mut msg, label);
        extend_str(&mut msg, " output_dir resolved outside the approved private artifact roots");
        return Err(safety_error(&msg));
    }
    Ok(())
}

// ---------------------------------------------------------------------------
// The order of the checks
// ---------------------------------------------------------------------------

/// A text or an error, as values.
pub open spec fn text_outcome(r: Result<String, InterspireError>) -> Result<Seq<char>, ErrorView> {
    match r {
        Ok(s) => Ok(s@),
        Err(e) => Err(e@),
    }
}

/// A list of paths or an error, as values.
pub open spec fn roots_outcome(r: Result<Vec<String>, InterspireError>) -> Result<
    Seq<Seq<char>>,
    ErrorView,
> {
    match r {
        Ok(v) => Ok(v.deep_view()),
        Err(e) => Err(e@),
    }
}

/// The safety refusal `m`, if any, or `then`.
pub open spec fn refuse_or<T>(m: Option<Seq<char>>, then: Result<T, ErrorView>) -> Result<
    T,
    ErrorView,
> {
    match m {
        Some(m) => Err(ErrorView::Safety(m)),
        None => then,
    }
}

/// The configured output directory, decided in order: the configured value
/// itself; then the repository root and the approved roots (each as the
/// file system gave it, or the error it gave); the directory must lie within
/// a root without being one; where it already resolves (`target`), the
/// resolved directory must not be a root, must be outside the repository
/// and within a root; finally its nearest existing ancestor, resolved, must
/// be outside the repository and within a root.
pub open spec fn output_dir_decision(
    raw: Option<Seq<char>>,
    output_dir_env: Seq<char>,
    output_roots_env: Seq<char>,
    label: Seq<char>,
    repo_root: Result<Seq<char>, ErrorView>,
    roots: Result<Seq<Seq<char>>, ErrorView>,
    target: Option<Seq<char>>,
    ancestor: Result<Seq<char>, ErrorView>,
) -> Result<Seq<char>, ErrorView> {
    match requested_output_dir_outcome(raw, output_dir_env, label) {
        Err(m) => Err(ErrorView::Safety(m)),
        Ok(p) => match repo_root {
            Err(e) => Err(e),
            Ok(repo) => match roots {
                Err(e) => Err(e),
                Ok(rs) => refuse_or(
                    under_roots_outcome(p, rs, label, output_roots_env),
                    refuse_or(
                        match target {
                            Some(t) => resolved_outcome(t, rs, repo, label, true),
                            None => None,
                        },
                        match ancestor {
                            Err(e) => Err(e),
                            Ok(a) => refuse_or(resolved_outcome(a, rs, repo, label, false), Ok(p)),
                        },
                    ),
                ),
            },
        },
    }
}

/// Decides the configured output directory from the configured value and
/// what the file system said: the repository root and approved roots (or
/// the error reading them), where the directory resolves if it exists, and
/// where its nearest existing ancestor resolves (or the error finding it).
/// Errors come in the order of the checks; an error handed in is returned
/// as it is.
pub fn decide_output_dir(
    raw: Option<&str>,
    output_dir_env: &str,
    output_roots_env: &str,
    label: &str,
    repo_root: Result<String, InterspireError>,
    roots: Result<Vec<String>, InterspireError>,
    target: Option<String>,
    ancestor: Result<String, InterspireError>,
) -> (r: Result<String, InterspireError>)
    ensures
        text_outcome(r) == output_dir_decision(
            match raw {
                Some(v) => Some(v@),
                None => None,
            },
            output_dir_env@,
            output_roots_env@,
            label@,
            text_outcome(repo_root),
            roots_outcome(roots),
            match target {
                Some(t) => Some(t@),
                None => None,
            },
            text_outcome(ancestor),
        ),
{
    let path = requested_output_dir(raw, output_dir_env, label)?;
    let repo = repo_root?;
    let rs = roots?;
    check_output_dir_under_roots(path.as_str(), &rs, label, output_roots_env)?;
    if let Some(t) = &target {
        check_resolved_output_dir(t.as_str(), &rs, repo.as_str(), label, true)?;
    }
    let a = ancestor?;
    check_resolved_output_dir(a.as_str(), &rs, repo.as_str(), label, false)?;
    Ok(path)
}

pub open spec fn symlink_message(label: Seq<char>) -> Seq<char> {
    label + " output_dir must not be a symlink"@
}

/// A created output directory, re-checked in order: it must not be a
/// symbolic link (`is_symlink`, or the error reading its metadata); then,
/// given the repository root, the approved roots and where it resolves (each
/// as the file system gave it, or its error), the resolved directory must
/// not be a root, must be outside the repository and within a root.
pub open spec fn created_dir_decision(
    label: Seq<char>,
    is_symlink: Result<bool, ErrorView>,
    repo_root: Result<Seq<char>, ErrorView>,
    roots: Result<Seq<Seq<char>>, ErrorView>,
    target: Result<Seq<char>, ErrorView>,
) -> Result<(), ErrorView> {
    match is_symlink {
        Err(e) => Err(e),
        Ok(true) => Err(ErrorView::Safety(symlink_message(label))),
        Ok(false) => match repo_root {
            Err(e) => Err(e),
            Ok(repo) => match roots {
                Err(e) => Err(e),
                Ok(rs) => match target {
                    Err(e) => Err(e),
                    Ok(t) => refuse_or(resolved_outcome(t, rs, repo, label, true), Ok(())),
                },
            },
        },
    }
}

/// Decides whether a created output directory is still approved, from what
/// the file system said of it. Errors come in the order of the checks; an
/// error handed in is returned as it is.
pub fn confirm_created_output_dir(
    label: &str,
    is_symlink: Result<bool, InterspireError>,
    repo_root: Result<String, InterspireError>,
    roots: Result<Vec<String>, InterspireError>,
    target: Result<String, InterspireError>,
) -> (r: Result<(), InterspireError>)
    ensures
        (match r {
            Ok(()) => Ok(()),
            Err(e) => Err(e@),
        }) == created_dir_decision(
            label@,
            match is_symlink {
                Ok(b) => Ok(b),
                Err(e) => Err(e@),
            },
            text_outcome(repo_root),
            roots_outcome(roots),
            text_outcome(target),
        ),
{
    if is_symlink? {
        let mut msg: Vec<char> = Vec::new();
        extend_str(&mut msg, label);
        extend_str(&mut msg, " output_dir must not be a symlink");
        return Err(safety_error(&msg));
    }
    let repo = repo_root?;
    let rs = roots?;
    let t = target?;
    check_resolved_output_dir(t.as_str(), &rs, repo.as_str(), label, true)
}

// ---------------------------------------------------------------------------
// Artifact name prefixes
// ---------------------------------------------------------------------------

/// Characters kept in a prefix; every other character becomes `-`.
pub open spec fn is_prefix_char(c: char) -> bool {
    is_alnum(c) || c == '-' || c == '_'
}

pub open spec fn prefix_char(c: char) -> char {
    if is_prefix_char(c) {
        c
    } else {
        '-'
    }
}

/// `s` with every run of `-` shortened to one `-`.
pub open spec fn collapse_dashes(s: Seq<char>) -> Seq<char>
    decreases s.len(),
{
    if s.len() == 0 {
        s
    } else {
        let r = collapse_dashes(s.drop_last());
        if s.last() == '-' && r.len() > 0 && r.last() == '-' {
            r
        } else {
            r.push(s.last())
        }
    }
}

/// The sanitised prefix: other characters mapped to `-`, runs of `-`
/// collapsed, `-` trimmed at both ends, at most 80 characters, and `default`
/// when nothing is left.
pub open spec fn safe_prefix_of(raw: Option<Seq<char>>, default: Seq<char>) -> Seq<char> {
    let source = match raw {
        Some(r) => r,
        None => default,
    };
    let out = trim_matches_char(collapse_dashes(source.map_values(|c: char| prefix_char(c))), '-');
    if out.len() == 0 {
        default
    } else if out.len() > 80 {
        out.take(80)
    } else {
        out
    }
}

/// A file-name prefix made only of ASCII letters, digits, `_` and single
/// inner `-`.
pub fn safe_prefix(raw: Option<&str>, default: &str) -> (r: String)
    ensures
        r@ == safe_prefix_of(
            match raw {
                Some(v) => Some(v@),
                None => None,
            },
            default@,
        ),
{
    let source = match raw {
        Some(v) => to_chars(v),
        None => to_chars(default),
    };
    let ghost mapped = source@.map_values(|c: char| prefix_char(c));
    let mut collapsed: Vec<char> = Vec::new();
    let n = source.len();
    assert(mapped.take(0) =~= Seq::<char>::empty());
    for i in 0..n
        invariant
            n == source@.len(),
            mapped == source@.map_values(|c: char| prefix_char(c)),
            collapsed@ == collapse_dashes(mapped.take(i as int)),
    {
        let c = source[i];
        let m = if crate::text::is_ascii_alphanumeric(c) || c == '-' || c == '_' {
            c
        } else {
            '-'
        };
        assert(mapped.take(i + 1).drop_last() == mapped.take(i as int));
        assert(mapped.take(i + 1).last() == m);
        let k = collapsed.len();
        if !(m == '-' && k > 0 && collapsed[k - 1] == '-') {
            collapsed.push(m);
        }
    }
    assert(mapped.take(n as int) == mapped);
    let out = trim_matches_chars(collapsed.as_slice(), '-');
    if out.len() == 0 {
        String::from_str(default)
    } else if out.len() > 80 {
        let head = copy_range(out.as_slice(), 0, 80);
        assert(head@ == out@.take(80));
        from_chars(head.as_slice())
    } else {
        from_chars(out.as_slice())
    }
}

// ---------------------------------------------------------------------------
// Laws
// ---------------------------------------------------------------------------

pub open spec fn all_prefix_chars(s: Seq<char>) -> bool {
    forall|i: int| 0 <= i < s.len() ==> is_prefix_char(#[trigger] s[i])
}

pub open spec fn no_double_dash(s: Seq<char>) -> bool {
    forall|i: int| 0 <= i < s.len() - 1 ==> !(#[trigger] s[i] == '-' && s[i + 1] == '-')
}

proof fn lemma_collapse(s: Seq<char>)
    requires
        all_prefix_chars(s),
    ensures
        all_prefix_chars(collapse_dashes(s)),
        no_double_dash(collapse_dashes(s)),
    decreases s.len(),
{
    if s.len() > 0 {
        let prefix = s.drop_last();
        assert(all_prefix_chars(prefix)) by {
            assert forall|i: int| 0 <= i < prefix.len() implies is_prefix_char(#[trigger] prefix[i]) by {
                assert(prefix[i] == s[i]);
            }
        }
        lemma_collapse(prefix);
        let r = collapse_dashes(prefix);
        assert(is_prefix_char(s[s.len() - 1]));
        if !(s.last() == '-' && r.len() > 0 && r.last() == '-') {
            let out = r.push(s.last());
            assert forall|i: int| 0 <= i < out.len() - 1 implies !(#[trigger] out[i] == '-' && out[i
                + 1] == '-') by {
                if i < out.len() - 2 {
                    assert(out[i] == r[i] && out[i + 1] == r[i + 1]);
                } else {
                    assert(out[i] == r.last());
                }
            }
        }
    }
}

proof fn lemma_clean_subrange(s: Seq<char>, lo: int, hi: int)
    requires
        0 <= lo <= hi <= s.len(),
        all_prefix_chars(s),
        no_double_dash(s),
    ensures
        all_prefix_chars(s.subrange(lo, hi)),
        no_double_dash(s.subrange(lo, hi)),
{
    let u = s.subrange(lo, hi);
    assert forall|i: int| 0 <= i < u.len() implies is_prefix_char(#[trigger] u[i]) by {
        assert(u[i] == s[lo + i]);
    }
    assert forall|i: int| 0 <= i < u.len() - 1 implies !(#[trigger] u[i] == '-' && u[i + 1] == '-') by {
        assert(u[i] == s[lo + i] && u[i + 1] == s[lo + i + 1]);
    }
}

proof fn lemma_trim_start_dash(s: Seq<char>)
    ensures
        exists|lo: int| 0 <= lo <= s.len() && trim_start_char(s, '-') == s.subrange(lo, s.len() as int),
        trim_start_char(s, '-').len() > 0 ==> trim_start_char(s, '-')[0] != '-',
    decreases s.len(),
{
    if s.len() > 0 && s[0] == '-' {
        lemma_trim_start_dash(s.drop_first());
        let lo = choose|lo: int|
            0 <= lo <= s.drop_first().len() && trim_start_char(s.drop_first(), '-')
                == s.drop_first().subrange(lo, s.drop_first().len() as int);
        assert(s.drop_first().subrange(lo, s.drop_first().len() as int) == s.subrange(
            lo + 1,
            s.len() as int,
        ));
    } else {
        assert(s.subrange(0, s.len() as int) == s);
    }
}

proof fn lemma_trim_end_dash(s: Seq<char>)
    ensures
        exists|hi: int| 0 <= hi <= s.len() && trim_end_char(s, '-') == s.subrange(0, hi),
        trim_end_char(s, '-').len() > 0 ==> trim_end_char(s, '-').last() != '-',
    decreases s.len(),
{
    if s.len() > 0 && s.last() == '-' {
        lemma_trim_end_dash(s.drop_last());
        let hi = choose|hi: int|
            0 <= hi <= s.drop_last().len() && trim_end_char(s.drop_last(), '-')
                == s.drop_last().subrange(0, hi);
        assert(s.drop_last().subrange(0, hi) == s.subrange(0, hi));
    } else {
        assert(s.subrange(0, s.len() as int) == s);
    }
}

/// A prefix other than the default is made of ASCII letters, digits, `_`
/// and `-`, never holds `--`, never starts with `-`, is at most 80
/// characters long and, unless it was cut to 80, does not end with `-`.
pub proof fn law_safe_prefix_is_sanitised(raw: Option<Seq<char>>, default: Seq<char>)
    ensures
        ({
            let r = safe_prefix_of(raw, default);
            r == default || {
                &&& 0 < r.len() <= 80
                &&& all_prefix_chars(r)
                &&& no_double_dash(r)
                &&& r[0] != '-'
                &&& r.len() < 80 ==> r.last() != '-'
            }
        }),
{
    let source = match raw {
        Some(v) => v,
        None => default,
    };
    let mapped = source.map_values(|c: char| prefix_char(c));
    assert(all_prefix_chars(mapped));
    lemma_collapse(mapped);
    let c = collapse_dashes(mapped);
    lemma_trim_start_dash(c);
    let a = trim_start_char(c, '-');
    let lo = choose|lo: int| 0 <= lo <= c.len() && a == c.subrange(lo, c.len() as int);
    lemma_clean_subrange(c, lo, c.len() as int);
    lemma_trim_end_dash(a);
    let out = trim_end_char(a, '-');
    let hi = choose|hi: int| 0 <= hi <= a.len() && out == a.subrange(0, hi);
    lemma_clean_subrange(a, 0, hi);
    assert(out == trim_matches_char(c, '-'));
    if out.len() > 0 {
        assert(out[0] == a[0]);
        if out.len() > 80 {
            lemma_clean_subrange(out, 0, 80);
            assert(out.take(80) == out.subrange(0, 80));
            assert(out.take(80)[0] == out[0]);
        }
    }
}

/// A configured output directory that passes its checks is absolute and
/// free of `.` and `..` components; one that passes the root check lies
/// within an approved root without being one.
pub proof fn law_accepted_output_dir_is_confined(
    raw: Option<Seq<char>>,
    output_dir_env: Seq<char>,
    label: Seq<char>,
    roots: Seq<Seq<char>>,
    output_roots_env: Seq<char>,
)
    ensures
        requested_output_dir_outcome(raw, output_dir_env, label) matches Ok(p) ==> (is_absolute(
            p,
        ) && !has_dot_component(p) && raw == Some(p)),
        requested_output_dir_outcome(raw, output_dir_env, label) matches Ok(p) ==> (
        under_roots_outcome(p, roots, label, output_roots_env) is None ==> (under_a_root(p, roots)
            && !is_a_root(p, roots))),
{
}

/// An output directory is accepted only when it is configured, absolute,
/// free of dot components, strictly within an approved root, resolves (where
/// it exists) to a non-root directory within a root and outside the
/// repository, and its nearest existing ancestor resolves within a root and
/// outside the repository; a created directory is kept only when it is not
/// a symbolic link and resolves to a non-root directory within a root and
/// outside the repository.
pub proof fn law_decided_output_dir_is_confined(
    raw: Option<Seq<char>>,
    output_dir_env: Seq<char>,
    output_roots_env: Seq<char>,
    label: Seq<char>,
    repo_root: Result<Seq<char>, ErrorView>,
    roots: Result<Seq<Seq<char>>, ErrorView>,
    target: Option<Seq<char>>,
    ancestor: Result<Seq<char>, ErrorView>,
    is_symlink: Result<bool, ErrorView>,
    created: Result<Seq<char>, ErrorView>,
)
    ensures
        output_dir_decision(
            raw,
            output_dir_env,
            output_roots_env,
            label,
            repo_root,
            roots,
            target,
            ancestor,
        ) matches Ok(p) ==> {
            &&& raw == Some(p)
            &&& is_absolute(p)
            &&& !has_dot_component(p)
            &&& roots matches Ok(rs)
            &&& repo_root matches Ok(repo)
            &&& ancestor matches Ok(a)
            &&& under_a_root(p, rs) && !is_a_root(p, rs)
            &&& under_a_root(a, rs) && !path_starts_with(a, repo)
            &&& target matches Some(t) ==> (under_a_root(t, rs) && !is_a_root(t, rs)
                && !path_starts_with(t, repo))
        },
        created_dir_decision(label, is_symlink, repo_root, roots, created) is Ok ==> {
            &&& is_symlink == Ok::<bool, ErrorView>(false)
            &&& roots matches Ok(rs)
            &&& repo_root matches Ok(repo)
            &&& created matches Ok(t)
            &&& under_a_root(t, rs) && !is_a_root(t, rs) && !path_starts_with(t, repo)
        },
{
}

/// Text without two `-` in a row is left as it is by collapsing.
proof fn lemma_collapse_keeps_single_dashes(s: Seq<char>)
    requires
        forall|i: int| 0 <= i < s.len() - 1 ==> !(#[trigger] s[i] == '-' && s[i + 1] == '-'),
    ensures
        collapse_dashes(s) == s,
    decreases s.len(),
{
    if s.len() > 0 {
        let p = s.drop_last();
        assert forall|i: int| 0 <= i < p.len() - 1 implies !(#[trigger] p[i] == '-' && p[i + 1] == '-') by {
            assert(p[i] == s[i] && p[i + 1] == s[i + 1]);
        }
        lemma_collapse_keeps_single_dashes(p);
        if s.last() == '-' && p.len() > 0 && p.last() == '-' {
            assert(s[s.len() - 2] == '-' && s[s.len() - 1] == '-');
        }
        assert(p.push(s.last()) =~= s);
    }
}

/// A name that is already safe is kept as it is (cut to 80 characters):
/// ASCII letters, digits, `_` and `-`, without `--`, neither starting nor
/// ending with `-`. In particular a short name such as `Q4` is kept, and the
/// default is used only when nothing is left of the name.
pub proof fn law_safe_name_is_kept(name: Seq<char>, default: Seq<char>)
    requires
        name.len() > 0,
        forall|i: int|
            0 <= i < name.len() ==> ('a' <= #[trigger] name[i] && name[i] <= 'z') || ('A' <= name[i]
                && name[i] <= 'Z') || ('0' <= name[i] && name[i] <= '9') || name[i] == '_'
                || name[i] == '-',
        forall|i: int| 0 <= i < name.len() - 1 ==> !(#[trigger] name[i] == '-' && name[i + 1] == '-'),
        name[0] != '-',
        name.last() != '-',
    ensures
        safe_prefix_of(Some(name), default) == if name.len() > 80 {
            name.take(80)
        } else {
            name
        },
{
    let mapped = name.map_values(|c: char| prefix_char(c));
    assert(mapped =~= name);
    lemma_collapse_keeps_single_dashes(name);
    assert(trim_start_char(name, '-') == name);
    assert(trim_end_char(name, '-') == name);
}

/// A directory strictly inside any one of the approved roots, whose nearest
/// existing ancestor resolves within any root and outside the repository,
/// is accepted when it does not resolve yet.
pub proof fn law_directory_inside_any_root_is_accepted(
    raw: Option<Seq<char>>,
    output_dir_env: Seq<char>,
    output_roots_env: Seq<char>,
    label: Seq<char>,
    p: Seq<char>,
    repo: Seq<char>,
    rs: Seq<Seq<char>>,
    i: int,
    a: Seq<char>,
    k: int,
)
    requires
        requested_output_dir_outcome(raw, output_dir_env, label) == Ok::<Seq<char>, Seq<char>>(p),
        0 <= i < rs.len(),
        path_starts_with(p, rs[i]),
        forall|j: int| 0 <= j < rs.len() ==> !path_eq(#[trigger] rs[j], p),
        0 <= k < rs.len(),
        path_starts_with(a, rs[k]),
        !path_starts_with(a, repo),
    ensures
        output_dir_decision(
            raw,
            output_dir_env,
            output_roots_env,
            label,
            Ok(repo),
            Ok(rs),
            None,
            Ok(a),
        ) == Ok::<Seq<char>, ErrorView>(p),
{
    assert(under_a_root(p, rs));
    assert(under_a_root(a, rs));
}

/// A created directory that is not a symbolic link and resolves strictly
/// inside any one of the approved roots, outside the repository, is kept.
pub proof fn law_created_directory_inside_any_root_is_kept(
    label: Seq<char>,
    repo: Seq<char>,
    rs: Seq<Seq<char>>,
    t: Seq<char>,
    i: int,
)
    requires
        0 <= i < rs.len(),
        path_starts_with(t, rs[i]),
        forall|j: int| 0 <= j < rs.len() ==> !path_eq(#[trigger] rs[j], t),
        !path_starts_with(t, repo),
    ensures
        created_dir_decision(label, Ok(false), Ok(repo), Ok(rs), Ok(t)) == Ok::<(), ErrorView>(()),
{
    assert(under_a_root(t, rs));
}

} // verus!
