//! The file-template includer: scans a file's bytes for references of the
//! form `{{relative/path}}`, replaces each with the referenced file parsed
//! the same way, and leaves everything else as it is.
//!
//! The includer works on an in-memory table of files — path bytes and
//! content bytes — handed in by the caller, who does the reading. Template
//! paths are resolved against the including file's path (so `..` steps from
//! the file back into its directory) by lexical normalization of `.` and
//! `..` components. A reference to a file that is currently being expanded
//! is reported as a cycle rather than followed forever.
use vstd::prelude::*;

verus! {

/// What can go wrong while parsing.
#[derive(Debug, PartialEq, Eq)]
pub enum ParsingError {
    /// No file of the table has the referenced path.
    IOError(Vec<u8>),
    /// A template references a file that is still being expanded.
    RecursivePath(Vec<u8>),
}

/// One file of the table: its path and its content.
pub struct FileEntry {
    pub path: Vec<u8>,
    pub content: Vec<u8>,
}

/// A path as a sequence of name components, `.`, `..` and empty components
/// resolved away.
pub open spec fn norm_step(stack: Seq<Seq<u8>>, cur: Seq<u8>) -> Seq<Seq<u8>> {
    if cur.len() == 0 || cur == seq![46u8] {
        stack
    } else if cur == seq![46u8, 46u8] {
        if stack.len() > 0 {
            stack.drop_last()
        } else {
            stack
        }
    } else {
        stack.push(cur)
    }
}

pub open spec fn normalize_from(s: Seq<u8>, i: int, stack: Seq<Seq<u8>>, cur: Seq<u8>) -> Seq<
    Seq<u8>,
>
    decreases s.len() - i,
{
    if i < 0 || i >= s.len() {
        norm_step(stack, cur)
    } else if s[i] == 47 {
        normalize_from(s, i + 1, norm_step(stack, cur), Seq::empty())
    } else {
        normalize_from(s, i + 1, stack, cur.push(s[i]))
    }
}

/// The normalized components of a path.
pub open spec fn normal_path(s: Seq<u8>) -> Seq<Seq<u8>> {
    normalize_from(s, 0, Seq::empty(), Seq::empty())
}

/// The position of the first adjacent pair of `b` at or after `from`.
pub open spec fn first_double(s: Seq<u8>, from: int, b: u8) -> Option<int>
    decreases s.len() - from,
{
    if from < 0 || from + 1 >= s.len() {
        None
    } else if s[from] == b && s[from + 1] == b {
        Some(from)
    } else {
        first_double(s, from + 1, b)
    }
}

/// Where the next template reference after `from` sits: the position of its
/// opening `{{` and of its closing `}}`. There is none when no `{{` is
/// left, or when the last `{{` is never closed.
pub open spec fn template_split(s: Seq<u8>, from: int) -> Option<(int, int)> {
    match first_double(s, from, 123) {
        Option::None => Option::None,
        Option::Some(o) => match first_double(s, o + 2, 125) {
            Option::None => Option::None,
            Option::Some(c) => Option::Some((o, c)),
        },
    }
}

pub proof fn lemma_first_double_bounds(s: Seq<u8>, from: int, b: u8)
    ensures
        match first_double(s, from, b) {
            Option::Some(i) => from <= i && i + 1 < s.len() && s[i] == b && s[i + 1] == b,
            Option::None => true,
        },
    decreases s.len() - from,
{
    if !(from < 0 || from + 1 >= s.len()) && !(s[from] == b && s[from + 1] == b) {
        lemma_first_double_bounds(s, from + 1, b);
    }
}

/// The outcome of expanding a file: its bytes, or the path that failed.
pub enum ParseOutcome {
    Done(Seq<u8>),
    NotFound(Seq<u8>),
    Recursive(Seq<u8>),
}

/// The normalized path of a table entry.
pub open spec fn norm_of(e: FileEntry) -> Seq<Seq<u8>> {
    normal_path(e.path@)
}

/// The first table entry whose normalized path is `target`.
pub open spec fn lookup_from(files: Seq<FileEntry>, target: Seq<Seq<u8>>, i: int) -> Option<int>
    decreases files.len() - i,
{
    if i < 0 || i >= files.len() {
        Option::None
    } else if norm_of(files[i]) == target {
        Option::Some(i)
    } else {
        lookup_from(files, target, i + 1)
    }
}

/// The expansion stack holds pairwise distinct normalized paths, each the
/// path of some table entry; so it can never outgrow the table.
pub open spec fn stack_ok(files: Seq<FileEntry>, stack: Seq<Seq<Seq<u8>>>) -> bool {
    &&& stack.no_duplicates()
    &&& forall|j: int|
        0 <= j < stack.len() ==> exists|i: int|
            0 <= i < files.len() && norm_of(files[i]) == #[trigger] stack[j]
}

pub proof fn lemma_stack_bound(files: Seq<FileEntry>, stack: Seq<Seq<Seq<u8>>>)
    requires
        stack_ok(files, stack),
    ensures
        stack.len() <= files.len(),
{
    broadcast use vstd::seq_lib::group_seq_properties;

    let norms = files.map(|i: int, e: FileEntry| norm_of(e));
    stack.unique_seq_to_set();
    norms.lemma_cardinality_of_set();
    assert forall|x: Seq<Seq<u8>>| stack.to_set().contains(x) implies norms.to_set().contains(
        x,
    ) by {
        assert(stack.contains(x));
        let j = choose|j: int| 0 <= j < stack.len() && stack[j] == x;
        let i = choose|i: int| 0 <= i < files.len() && norm_of(files[i]) == stack[j];
        assert(norms[i] == x);
        assert(norms.contains(x));
    }
    assert(stack.to_set().subset_of(norms.to_set()));
    vstd::set_lib::lemma_len_subset(stack.to_set(), norms.to_set());
}

/// What expanding the table's file `fi` from position `pos` yields, with
/// `stack` holding the normalized paths of the files currently being
/// expanded: the file's bytes with each `{{path}}` replaced by the
/// referenced file expanded the same way. An unclosed `{{` is left as it
/// is; the first unresolvable or cyclic reference ends the expansion.
pub open spec fn spec_expand(
    files: Seq<FileEntry>,
    fi: int,
    pos: int,
    stack: Seq<Seq<Seq<u8>>>,
) -> ParseOutcome
    decreases files.len() - stack.len(), files[fi].content@.len() - pos,
        when 0 <= fi < files.len() && 0 <= pos && stack_ok(files, stack)
{
    let content = files[fi].content@;
    match template_split(content, pos) {
        Option::None => ParseOutcome::Done(
            if pos <= content.len() {
                content.skip(pos)
            } else {
                Seq::empty()
            },
        ),
        Option::Some((o, c)) => {
            proof {
                lemma_first_double_bounds(content, pos, 123u8);
                if first_double(content, pos, 123u8) is Some {
                    let o2 = first_double(content, pos, 123u8)->Some_0;
                    lemma_first_double_bounds(content, o2 + 2, 125u8);
                }
            }
            let lit = if 0 <= pos <= o <= content.len() {
                content.subrange(pos, o)
            } else {
                Seq::empty()
            };
            let rel = if 0 <= o + 2 <= c <= content.len() {
                content.subrange(o + 2, c)
            } else {
                Seq::empty()
            };
            let joined = files[fi].path@ + seq![47u8] + rel;
            let target = normal_path(joined);
            match lookup_from(files, target, 0) {
                Option::None => ParseOutcome::NotFound(joined),
                Option::Some(ni) => {
                    if stack.contains(target) {
                        ParseOutcome::Recursive(joined)
                    } else {
                        proof {
                            lemma_lookup_norm(files, target, 0);
                            lemma_stack_bound(files, stack.push(target));
                        }
                        match spec_expand(files, ni, 0, stack.push(target)) {
                            ParseOutcome::Done(inner) => match spec_expand(
                                files,
                                fi,
                                c + 2,
                                stack,
                            ) {
                                ParseOutcome::Done(rest) => ParseOutcome::Done(
                                    lit + inner + rest,
                                ),
                                err => err,
                            },
                            err => err,
                        }
                    }
                },
            }
        },
    }
}

/// What a successful lookup returns: an index whose entry's normalized path
/// is the target.
pub proof fn lemma_lookup_norm(files: Seq<FileEntry>, target: Seq<Seq<u8>>, i: int)
    ensures
        match lookup_from(files, target, i) {
            Option::Some(ni) => i <= ni < files.len() && norm_of(files[ni]) == target,
            Option::None => true,
        },
    decreases files.len() - i,
{
    if !(i < 0 || i >= files.len()) && !(norm_of(files[i]) == target) {
        lemma_lookup_norm(files, target, i + 1);
    }
}

/// What parsing a file of the table yields.
pub open spec fn spec_parse(files: Seq<FileEntry>, filepath: Seq<u8>) -> ParseOutcome {
    match lookup_from(files, normal_path(filepath), 0) {
        Option::None => ParseOutcome::NotFound(filepath),
        Option::Some(fi) => spec_expand(files, fi, 0, seq![normal_path(filepath)]),
    }
}

/// The outcome a parse result stands for.
pub open spec fn result_outcome(r: Result<Vec<u8>, ParsingError>) -> ParseOutcome {
    match r {
        Result::Ok(v) => ParseOutcome::Done(v@),
        Result::Err(ParsingError::IOError(p)) => ParseOutcome::NotFound(p@),
        Result::Err(ParsingError::RecursivePath(p)) => ParseOutcome::Recursive(p@),
    }
}

/// The components a component list stands for.
pub open spec fn comps_view(v: Seq<Vec<u8>>) -> Seq<Seq<u8>> {
    v.map(|i: int, c: Vec<u8>| c@)
}

/// The paths an expansion stack stands for.
pub open spec fn stacks_view(v: Seq<Vec<Vec<u8>>>) -> Seq<Seq<Seq<u8>>> {
    v.map(|i: int, x: Vec<Vec<u8>>| comps_view(x@))
}

/// Folds the component collected so far into the stack and clears it.
fn apply_component(stack: &mut Vec<Vec<u8>>, cur: &mut Vec<u8>)
    ensures
        comps_view(final(stack)@) == norm_step(comps_view(old(stack)@), old(cur)@),
        final(cur)@ == Seq::<u8>::empty(),
{
    let is_empty = cur.len() == 0;
    let is_dot = cur.len() == 1 && cur[0] == 46;
    let is_dotdot = cur.len() == 2 && cur[0] == 46 && cur[1] == 46;
    proof {
        if is_dot {
            assert(old(cur)@ =~= seq![46u8]);
        }
        if is_dotdot {
            assert(old(cur)@ =~= seq![46u8, 46u8]);
        }
        if !is_empty && !is_dot && old(cur)@.len() == 1 {
            assert(old(cur)@ != seq![46u8]) by {
                if old(cur)@ == seq![46u8] {
                    assert(old(cur)@[0] == 46u8);
                }
            }
        }
        if !is_dotdot && old(cur)@.len() == 2 {
            assert(old(cur)@ != seq![46u8, 46u8]) by {
                if old(cur)@ == seq![46u8, 46u8] {
                    assert(old(cur)@[0] == 46u8 && old(cur)@[1] == 46u8);
                }
            }
        }
    }
    if is_empty || is_dot {
        cur.clear();
    } else if is_dotdot {
        if stack.len() > 0 {
            stack.pop();
        }
        cur.clear();
        proof {
            assert(comps_view(stack@) =~= comps_view(old(stack)@).drop_last() || old(
                stack,
            )@.len() == 0);
        }
    } else {
        let c = crate::bytes::clone_bytes(cur);
        stack.push(c);
        cur.clear();
        proof {
            assert(comps_view(stack@) =~= comps_view(old(stack)@).push(old(cur)@));
        }
    }
}

/// The normalized components of a path.
fn normalize(s: &Vec<u8>) -> (r: Vec<Vec<u8>>)
    ensures
        comps_view(r@) == normal_path(s@),
{
    let mut stack: Vec<Vec<u8>> = Vec::new();
    let mut cur: Vec<u8> = Vec::new();
    let mut i: usize = 0;
    proof {
        assert(comps_view(stack@) =~= Seq::<Seq<u8>>::empty());
        assert(cur@ =~= Seq::<u8>::empty());
    }
    while i < s.len()
        invariant
            0 <= i <= s@.len(),
            normalize_from(s@, i as int, comps_view(stack@), cur@) == normal_path(s@),
        decreases s@.len() - i,
    {
        if s[i] == 47 {
            apply_component(&mut stack, &mut cur);
        } else {
            cur.push(s[i]);
        }
        i = i + 1;
    }
    apply_component(&mut stack, &mut cur);
    stack
}

/// Whether two component lists name the same path.
fn eq_comps(a: &Vec<Vec<u8>>, b: &Vec<Vec<u8>>) -> (r: bool)
    ensures
        r == (comps_view(a@) == comps_view(b@)),
{
    if a.len() != b.len() {
        proof {
            assert(comps_view(a@).len() != comps_view(b@).len());
        }
        return false;
    }
    let mut i: usize = 0;
    while i < a.len()
        invariant
            0 <= i <= a@.len(),
            a@.len() == b@.len(),
            forall|j: int| 0 <= j < i ==> comps_view(a@)[j] == comps_view(b@)[j],
        decreases a@.len() - i,
    {
        if !crate::bytes::eq_bytes(&a[i], &b[i]) {
            proof {
                assert(comps_view(a@)[i as int] != comps_view(b@)[i as int]);
            }
            return false;
        }
        i = i + 1;
    }
    proof {
        assert(comps_view(a@) =~= comps_view(b@));
    }
    true
}

/// Whether the expansion stack already holds the path.
fn stack_contains(stack: &Vec<Vec<Vec<u8>>>, t: &Vec<Vec<u8>>) -> (r: bool)
    ensures
        r == stacks_view(stack@).contains(comps_view(t@)),
{
    let mut i: usize = 0;
    while i < stack.len()
        invariant
            0 <= i <= stack@.len(),
            forall|j: int| 0 <= j < i ==> stacks_view(stack@)[j] != comps_view(t@),
        decreases stack@.len() - i,
    {
        if eq_comps(&stack[i], t) {
            proof {
                assert(stacks_view(stack@)[i as int] == comps_view(t@));
            }
            return true;
        }
        i = i + 1;
    }
    false
}

/// The first table entry with the given normalized path.
fn find_file(files: &Vec<FileEntry>, t: &Vec<Vec<u8>>) -> (r: Option<usize>)
    ensures
        match r {
            Option::Some(i) => lookup_from(files@, comps_view(t@), 0) == Option::Some(i as int),
            Option::None => lookup_from(files@, comps_view(t@), 0) is None,
        },
{
    let mut i: usize = 0;
    while i < files.len()
        invariant
            0 <= i <= files@.len(),
            lookup_from(files@, comps_view(t@), 0) == lookup_from(files@, comps_view(t@), i as int),
        decreases files@.len() - i,
    {
        let nf = normalize(&files[i].path);
        if eq_comps(&nf, t) {
            return Some(i);
        }
        i = i + 1;
    }
    None
}

/// The position of the first adjacent pair of the byte at or after `start`.
///
/// This is the stream scan of the original on in-memory bytes: a reference
/// opens at the first `{{` and closes at the first `}}` after it.
pub fn find_repeated_byte(content: &Vec<u8>, start: usize, byte: u8) -> (r: Option<usize>)
    ensures
        match r {
            Option::Some(i) => start <= i && i + 1 < content@.len() && first_double(
                content@,
                start as int,
                byte,
            ) == Option::Some(i as int),
            Option::None => first_double(content@, start as int, byte) is None,
        },
{
    let n = content.len();
    if n < 2 || start > n - 2 {
        return None;
    }
    let mut i: usize = start;
    while i + 1 < n
        invariant
            start <= i < n,
            n == content@.len(),
            first_double(content@, start as int, byte) == first_double(content@, i as int, byte),
        decreases n - i,
    {
        if content[i] == byte && content[i + 1] == byte {
            return Some(i);
        }
        i = i + 1;
    }
    None
}

/// Where the next template reference after `start` sits: the position of
/// its opening braces and of its closing braces.
pub fn find_template(content: &Vec<u8>, start: usize) -> (r: Option<(usize, usize)>)
    ensures
        match r {
            Option::Some(oc) => template_split(content@, start as int) == Option::Some(
                (oc.0 as int, oc.1 as int),
            ),
            Option::None => template_split(content@, start as int) is None,
        },
{
    let n = content.len();
    match find_repeated_byte(content, start, 123) {
        Option::None => None,
        Option::Some(o) => match find_repeated_byte(content, o + 2, 125) {
            Option::None => None,
            Option::Some(c) => Some((o, c)),
        },
    }
}

fn join_path(base: &Vec<u8>, rel: &Vec<u8>) -> (r: Vec<u8>)
    ensures
        r@ == base@ + seq![47u8] + rel@,
{
    let mut r = crate::bytes::clone_bytes(base);
    r.push(47);
    let mut tail = crate::bytes::clone_bytes(rel);
    r.append(&mut tail);
    proof {
        assert(r@ =~= base@ + seq![47u8] + rel@);
    }
    r
}

/// Expands the table's file `fi` from byte position `pos`, with `stack`
/// holding the files currently being expanded.
fn parse_recursive(
    files: &Vec<FileEntry>,
    fi: usize,
    pos: usize,
    stack: &mut Vec<Vec<Vec<u8>>>,
) -> (r: Result<Vec<u8>, ParsingError>)
    requires
        fi < files@.len(),
        pos <= files@[fi as int].content@.len(),
        stack_ok(files@, stacks_view(old(stack)@)),
    ensures
        final(stack)@ == old(stack)@,
        result_outcome(r) == spec_expand(
            files@,
            fi as int,
            pos as int,
            stacks_view(old(stack)@),
        ),
    decreases files@.len() - stack@.len(), files@[fi as int].content@.len() - pos,
{
    let ghost sv = stacks_view(old(stack)@);
    let content = &files[fi].content;
    let n = content.len();
    match find_template(content, pos) {
        Option::None => {
            let rest = crate::bytes::copy_range(content, pos, content.len());
            proof {
                assert(rest@ =~= content@.skip(pos as int));
            }
            Ok(rest)
        },
        Option::Some((o, c)) => {
            proof {
                lemma_first_double_bounds(content@, pos as int, 123u8);
                let o2 = first_double(content@, pos as int, 123u8)->Some_0;
                lemma_first_double_bounds(content@, o2 + 2, 125u8);
            }
            let lit = crate::bytes::copy_range(content, pos, o);
            let rel = crate::bytes::copy_range(content, o + 2, c);
            let joined = join_path(&files[fi].path, &rel);
            let target = normalize(&joined);
            match find_file(files, &target) {
                Option::None => Err(ParsingError::IOError(joined)),
                Option::Some(ni) => {
                    if stack_contains(stack, &target) {
                        Err(ParsingError::RecursivePath(joined))
                    } else {
                        proof {
                            lemma_lookup_norm(files@, comps_view(target@), 0);
                            assert(stacks_view(stack@.push(target)) =~= sv.push(
                                comps_view(target@),
                            ));
                            assert(stack_ok(files@, sv.push(comps_view(target@)))) by {
                                assert forall|j: int, j2: int|
                                    0 <= j < j2 < sv.push(comps_view(target@)).len() implies sv.push(
                                    comps_view(target@),
                                )[j] != sv.push(comps_view(target@))[j2] by {
                                    if j2 == sv.len() as int {
                                        assert(sv.push(comps_view(target@))[j] == sv[j]);
                                        assert(sv.contains(sv[j]));
                                    }
                                }
                            }
                            lemma_stack_bound(files@, sv.push(comps_view(target@)));
                        }
                        stack.push(target);
                        let inner = parse_recursive(files, ni, 0, stack);
                        stack.pop();
                        proof {
                            assert(stack@ =~= old(stack)@);
                        }
                        match inner {
                            Err(e) => Err(e),
                            Ok(mut inner_bytes) => {
                                let rest = parse_recursive(files, fi, c + 2, stack);
                                match rest {
                                    Err(e) => Err(e),
                                    Ok(mut rest_bytes) => {
                                        let mut out = lit;
                                        out.append(&mut inner_bytes);
                                        out.append(&mut rest_bytes);
                                        Ok(out)
                                    },
                                }
                            },
                        }
                    }
                },
            }
        },
    }
}

/// Parses a file of the table for templates and returns its expanded
/// contents as a vector of bytes.
///
/// Template references take the form `{{../relative/path/to/file}}` and are
/// resolved against the path of the file that holds them.
pub fn parse(files: &Vec<FileEntry>, filepath: &Vec<u8>) -> (r: Result<Vec<u8>, ParsingError>)
    ensures
        result_outcome(r) == spec_parse(files@, filepath@),
{
    let target = normalize(filepath);
    match find_file(files, &target) {
        Option::None => Err(ParsingError::IOError(crate::bytes::clone_bytes(filepath))),
        Option::Some(fi) => {
            proof {
                lemma_lookup_norm(files@, comps_view(target@), 0);
            }
            let mut stack: Vec<Vec<Vec<u8>>> = Vec::new();
            stack.push(target);
            proof {
                assert(stacks_view(stack@) =~= seq![normal_path(filepath@)]);
                assert(stack_ok(files@, stacks_view(stack@)));
            }
            parse_recursive(files, fi, 0, &mut stack)
        },
    }
}

} // verus!
