//! The description of what a parse produced: the file tree and its
//! `tree(1)`-style rendering.

use vstd::prelude::*;

use crate::util::{decimal, digit_char, push_char, push_chars, push_decimal, push_str};

verus! {

/// Recursive directory / file tree node.  Paths are relative to the output
/// folder.
#[derive(Debug)]
pub enum FileNode {
    File { name: String, path: String, size: u64 },
    Dir { name: String, path: String, children: Vec<FileNode> },
}

/// The name shown for a node.
pub open spec fn node_name(n: FileNode) -> Seq<char> {
    match n {
        FileNode::File { name, .. } => name@,
        FileNode::Dir { name, .. } => name@,
    }
}

/// Connector drawn before the last entry of a directory.
pub open spec fn last_connector() -> Seq<char> {
    seq!['└', '─', '─', ' ']
}

/// Connector drawn before the other entries of a directory.
pub open spec fn mid_connector() -> Seq<char> {
    seq!['├', '─', '─', ' ']
}

/// Indentation continuing below the last entry of a directory.
pub open spec fn last_indent() -> Seq<char> {
    seq![' ', ' ', ' ', ' ']
}

/// Indentation continuing below the other entries of a directory.
pub open spec fn mid_indent() -> Seq<char> {
    seq!['│', ' ', ' ', ' ']
}

/// The lines for the entries `children` of a directory, each line starting
/// with `prefix`.  Files show their size in bytes, directories a trailing
/// `/` and then their own entries, indented one level further.
pub open spec fn render_entries(children: Seq<FileNode>, prefix: Seq<char>) -> Seq<char>
    decreases children,
{
    if children.len() == 0 {
        Seq::empty()
    } else {
        let c = children[0];
        let last = children.len() == 1;
        let connector = if last {
            last_connector()
        } else {
            mid_connector()
        };
        let next_prefix = if last {
            last_indent()
        } else {
            mid_indent()
        };
        let rest = children.subrange(1, children.len() as int);
        let head = match c {
            FileNode::File { name, size, .. } => prefix + connector + name@ + "  ("@ + decimal(
                size as nat,
            ) + " B)"@ + seq!['\n'],
            FileNode::Dir { name, children: sub, .. } => {
                proof {
                    assert(decreases_to!(children => c));
                    assert(decreases_to!(c => sub));
                    assert(decreases_to!(sub => sub@));
                }
                prefix + connector + name@ + seq!['/', '\n'] + render_entries(sub@, prefix + next_prefix)
            },
        };
        head + render_entries(rest, prefix)
    }
}

/// The full rendering of a tree: the root's name on its own line, followed
/// by its entries when it is a directory.
pub open spec fn render_tree_spec(n: FileNode) -> Seq<char> {
    match n {
        FileNode::File { name, .. } => name@.push('\n'),
        FileNode::Dir { name, children, .. } => name@.push('\n') + render_entries(children@, Seq::empty()),
    }
}

/// Appends the connector for an entry (`last` tells whether it is the
/// directory's last entry).
fn push_connector(out: &mut String, last: bool)
    ensures
        final(out)@ == old(out)@ + (if last {
            last_connector()
        } else {
            mid_connector()
        }),
{
    if last {
        push_char(out, '└');
    } else {
        push_char(out, '├');
    }
    push_char(out, '─');
    push_char(out, '─');
    push_char(out, ' ');
    assert(out@ =~= old(out)@ + (if last {
        last_connector()
    } else {
        mid_connector()
    }));
}

/// The prefix one level further in, below an entry.
fn deeper_prefix(prefix: &Vec<char>, last: bool) -> (r: Vec<char>)
    ensures
        r@ == prefix@ + (if last {
            last_indent()
        } else {
            mid_indent()
        }),
{
    let mut r: Vec<char> = Vec::new();
    let mut k: usize = 0;
    while k < prefix.len()
        invariant
            k <= prefix.len(),
            r@ == prefix@.take(k as int),
        decreases prefix.len() - k,
    {
        r.push(prefix[k]);
        assert(prefix@.take(k + 1) =~= prefix@.take(k as int).push(prefix@[k as int]));
        k += 1;
    }
    assert(prefix@.take(prefix.len() as int) =~= prefix@);
    if last {
        r.push(' ');
    } else {
        r.push('│');
    }
    r.push(' ');
    r.push(' ');
    r.push(' ');
    assert(r@ =~= prefix@ + (if last {
        last_indent()
    } else {
        mid_indent()
    }));
    r
}

/// Renders the entries of a directory below `prefix` onto `out`.
pub fn render_children(children: &Vec<FileNode>, prefix: &Vec<char>, out: &mut String)
    ensures
        final(out)@ == old(out)@ + render_entries(children@, prefix@),
    decreases children@,
{
    let n = children.len();
    let mut i: usize = 0;
    assert(children@.subrange(0, n as int) =~= children@);
    while i < n
        invariant
            n == children.len(),
            i <= n,
            old(out)@ + render_entries(children@, prefix@) == out@ + render_entries(
                children@.subrange(i as int, n as int),
                prefix@,
            ),
        decreases n - i,
    {
        let ghost rest = children@.subrange(i as int, n as int);
        assert(rest[0] == children@[i as int]);
        assert(rest.subrange(1, rest.len() as int) =~= children@.subrange(i + 1, n as int));
        let last = i + 1 == n;
        assert(last == (rest.len() == 1));
        let ghost before = out@;
        match &children[i] {
            FileNode::File { name, size, .. } => {
                push_chars(out, prefix);
                push_connector(out, last);
                push_str(out, name.as_str());
                push_str(out, "  (");
                push_decimal(out, *size);
                push_str(out, " B)");
                push_char(out, '\n');
            },
            FileNode::Dir { name, children: sub, .. } => {
                push_chars(out, prefix);
                push_connector(out, last);
                push_str(out, name.as_str());
                push_char(out, '/');
                push_char(out, '\n');
                let np = deeper_prefix(prefix, last);
                proof {
                    assert(decreases_to!(children@ => children@[i as int]));
                    assert(decreases_to!(children@[i as int] => *sub));
                    assert(decreases_to!(*sub => sub@));
                }
                render_children(sub, &np, out);
            },
        }
        assert(out@ =~= before + (render_entries(rest, prefix@).subrange(
            0,
            render_entries(rest, prefix@).len() - render_entries(rest.subrange(1, rest.len() as int), prefix@).len(),
        )));
        i += 1;
    }
}

/// Renders a tree as `tree(1)` does: the root's name, then one line per
/// entry below it.
pub fn render_tree(node: &FileNode) -> (r: String)
    ensures
        r@ == render_tree_spec(*node),
{
    let mut out = String::new();
    match node {
        FileNode::File { name, .. } => {
            push_str(&mut out, name.as_str());
            push_char(&mut out, '\n');
        },
        FileNode::Dir { name, children, .. } => {
            push_str(&mut out, name.as_str());
            push_char(&mut out, '\n');
            let empty: Vec<char> = Vec::new();
            render_children(children, &empty, &mut out);
            assert(empty@ =~= Seq::<char>::empty());
        },
    }
    out
}

/// What a parse produced.
#[derive(Debug)]
pub struct ParseOutput {
    /// The per-input folder that was created.
    pub dir: String,
    /// The file tree under `dir`.
    pub files: FileNode,
    /// `tree(1)`-style rendering of `files`.
    pub tree: String,
}

impl ParseOutput {
    /// Describes the folder `dir` whose contents are `files`.
    pub fn new(dir: String, files: FileNode) -> (r: ParseOutput)
        ensures
            r.dir == dir,
            r.files == files,
            r.tree@ == render_tree_spec(files),
    {
        let tree = render_tree(&files);
        ParseOutput { dir, files, tree }
    }
}

// ---------------------------------------------------------------------------
// Laws of the rendering
// ---------------------------------------------------------------------------

/// Number of line breaks in `s`.
pub open spec fn count_newlines(s: Seq<char>) -> nat
    decreases s.len(),
{
    if s.len() == 0 {
        0
    } else {
        count_newlines(s.drop_last()) + if s.last() == '\n' {
            1nat
        } else {
            0nat
        }
    }
}

/// Number of nodes among the entries (counting everything below them).
pub open spec fn entries_count(children: Seq<FileNode>) -> nat
    decreases children,
{
    if children.len() == 0 {
        0
    } else {
        let c = children[0];
        let rest = children.subrange(1, children.len() as int);
        let here = match c {
            FileNode::File { .. } => 1nat,
            FileNode::Dir { children: sub, .. } => {
                proof {
                    assert(decreases_to!(children => c));
                    assert(decreases_to!(c => sub));
                    assert(decreases_to!(sub => sub@));
                }
                1 + entries_count(sub@)
            },
        };
        here + entries_count(rest)
    }
}

/// Number of nodes in a tree.
pub open spec fn node_count(n: FileNode) -> nat {
    match n {
        FileNode::File { .. } => 1,
        FileNode::Dir { children, .. } => 1 + entries_count(children@),
    }
}

/// No name among the entries (at any depth) holds a line break.
pub open spec fn entries_clean(children: Seq<FileNode>) -> bool
    decreases children,
{
    if children.len() == 0 {
        true
    } else {
        let c = children[0];
        let rest = children.subrange(1, children.len() as int);
        let here = match c {
            FileNode::File { name, .. } => !name@.contains('\n'),
            FileNode::Dir { name, children: sub, .. } => {
                proof {
                    assert(decreases_to!(children => c));
                    assert(decreases_to!(c => sub));
                    assert(decreases_to!(sub => sub@));
                }
                !name@.contains('\n') && entries_clean(sub@)
            },
        };
        here && entries_clean(rest)
    }
}

/// No name in the tree holds a line break.
pub open spec fn tree_clean(n: FileNode) -> bool {
    match n {
        FileNode::File { name, .. } => !name@.contains('\n'),
        FileNode::Dir { name, children, .. } => !name@.contains('\n') && entries_clean(children@),
    }
}

proof fn lemma_count_concat(a: Seq<char>, b: Seq<char>)
    ensures
        count_newlines(a + b) == count_newlines(a) + count_newlines(b),
    decreases b.len(),
{
    if b.len() == 0 {
        assert(a + b =~= a);
    } else {
        lemma_count_concat(a, b.drop_last());
        assert((a + b).drop_last() =~= a + b.drop_last());
    }
}

proof fn lemma_count_none(a: Seq<char>)
    requires
        !a.contains('\n'),
    ensures
        count_newlines(a) == 0,
    decreases a.len(),
{
    if a.len() > 0 {
        assert(!a.drop_last().contains('\n')) by {
            if a.drop_last().contains('\n') {
                let i = choose|i: int| 0 <= i < a.drop_last().len() && a.drop_last()[i] == '\n';
                assert(a[i] == '\n');
            }
        }
        lemma_count_none(a.drop_last());
        assert(a.last() == a[a.len() - 1]);
    }
}

proof fn lemma_decimal_no_newline(n: nat)
    ensures
        !decimal(n).contains('\n'),
    decreases n,
{
    if n >= 10 {
        lemma_decimal_no_newline(n / 10);
    }
    assert forall|i: int| 0 <= i < decimal(n).len() implies decimal(n)[i] != '\n' by {
        if n >= 10 && i < decimal(n).len() - 1 {
            assert(decimal(n)[i] == decimal(n / 10)[i]);
        } else {
            let d = if n < 10 {
                n as int
            } else {
                (n % 10) as int
            };
            assert(digit_char(d) as u32 == 48 + d);
        }
    }
}

proof fn lemma_count_lit(a: Seq<char>)
    requires
        forall|i: int| 0 <= i < a.len() ==> a[i] != '\n',
    ensures
        count_newlines(a) == 0,
{
    lemma_count_none(a);
}

proof fn lemma_entries_lines(children: Seq<FileNode>, prefix: Seq<char>)
    requires
        entries_clean(children),
        !prefix.contains('\n'),
    ensures
        count_newlines(render_entries(children, prefix)) == entries_count(children),
    decreases children,
{
    if children.len() > 0 {
        let c = children[0];
        let last = children.len() == 1;
        let connector = if last {
            last_connector()
        } else {
            mid_connector()
        };
        let next_prefix = if last {
            last_indent()
        } else {
            mid_indent()
        };
        let rest = children.subrange(1, children.len() as int);
        lemma_entries_lines(rest, prefix);
        lemma_count_lit(prefix);
        lemma_count_lit(connector);
        match c {
            FileNode::File { name, size, .. } => {
                reveal_strlit("  (");
                reveal_strlit(" B)");
                lemma_count_lit(name@);
                lemma_decimal_no_newline(size as nat);
                lemma_count_none(decimal(size as nat));
                lemma_count_lit("  ("@);
                lemma_count_lit(" B)"@);
                let h1 = prefix + connector;
                let h2 = h1 + name@;
                let h3 = h2 + "  ("@;
                let h4 = h3 + decimal(size as nat);
                let h5 = h4 + " B)"@;
                let h6 = h5 + seq!['\n'];
                lemma_count_concat(prefix, connector);
                lemma_count_concat(h1, name@);
                lemma_count_concat(h2, "  ("@);
                lemma_count_concat(h3, decimal(size as nat));
                lemma_count_concat(h4, " B)"@);
                lemma_count_concat(h5, seq!['\n']);
                assert(count_newlines(seq!['\n']) == 1) by {
                    let x = seq!['\n'];
                    assert(x.drop_last() =~= Seq::<char>::empty());
                    assert(count_newlines(x.drop_last()) == 0);
                    assert(x.last() == '\n');
                }
                lemma_count_concat(h6, render_entries(rest, prefix));
            },
            FileNode::Dir { name, children: sub, .. } => {
                assert(decreases_to!(children => c));
                assert(decreases_to!(c => sub));
                assert(decreases_to!(sub => sub@));
                let np = prefix + next_prefix;
                assert(!np.contains('\n')) by {
                    if np.contains('\n') {
                        let i = choose|i: int| 0 <= i < np.len() && np[i] == '\n';
                        if i < prefix.len() {
                            assert(prefix[i] == np[i]);
                        } else {
                            assert(next_prefix[i - prefix.len()] == np[i]);
                        }
                    }
                }
                lemma_entries_lines(sub@, np);
                lemma_count_lit(name@);
                let h1 = prefix + connector;
                let h2 = h1 + name@;
                let h3 = h2 + seq!['/', '\n'];
                lemma_count_concat(prefix, connector);
                lemma_count_concat(h1, name@);
                lemma_count_concat(h2, seq!['/', '\n']);
                assert(count_newlines(seq!['/', '\n']) == 1) by {
                    let x = seq!['/', '\n'];
                    let y = seq!['/'];
                    assert(x.drop_last() =~= y);
                    assert(y.drop_last() =~= Seq::<char>::empty());
                    assert(count_newlines(y.drop_last()) == 0);
                    assert(y.last() == '/');
                    assert(count_newlines(y) == 0);
                    assert(x.last() == '\n');
                }
                lemma_count_concat(h3, render_entries(sub@, np));
                lemma_count_concat(h3 + render_entries(sub@, np), render_entries(rest, prefix));
            },
        }
    }
}

/// The rendering has one line per node of the tree (when no name holds a
/// line break of its own).
pub proof fn lemma_tree_one_line_per_node(n: FileNode)
    requires
        tree_clean(n),
    ensures
        count_newlines(render_tree_spec(n)) == node_count(n),
{
    match n {
        FileNode::File { name, .. } => {
            lemma_count_lit(name@);
            assert(name@.push('\n').drop_last() =~= name@);
        },
        FileNode::Dir { name, children, .. } => {
            lemma_count_lit(name@);
            assert(name@.push('\n').drop_last() =~= name@);
            lemma_entries_lines(children@, Seq::empty());
            lemma_count_concat(name@.push('\n'), render_entries(children@, Seq::empty()));
        },
    }
}

/// How each entry of a directory is drawn: the entry's line is the prefix,
/// `└── ` for the directory's last entry and `├── ` for the others, the
/// name, and the size of a file or a `/` for a directory; a directory's own
/// entries follow, drawn with the prefix extended by four spaces below the
/// last entry (no `│` continues there) and by `│   ` below the others; then
/// come the following entries.
pub proof fn lemma_entry_layout(children: Seq<FileNode>, prefix: Seq<char>, i: int)
    requires
        0 <= i < children.len(),
    ensures
        ({
            let last = i == children.len() - 1;
            let connector = if last {
                seq!['└', '─', '─', ' ']
            } else {
                seq!['├', '─', '─', ' ']
            };
            let indent = if last {
                seq![' ', ' ', ' ', ' ']
            } else {
                seq!['│', ' ', ' ', ' ']
            };
            render_entries(children.subrange(i, children.len() as int), prefix) == match children[i] {
                FileNode::File { name, size, .. } => prefix + connector + name@ + seq![' ', ' ', '('] + decimal(
                    size as nat,
                ) + seq![' ', 'B', ')', '\n'],
                FileNode::Dir { name, children: sub, .. } => prefix + connector + name@ + seq!['/', '\n']
                    + render_entries(sub@, prefix + indent),
            } + render_entries(children.subrange(i + 1, children.len() as int), prefix)
        }),
{
    reveal_strlit("  (");
    reveal_strlit(" B)");
    let rest = children.subrange(i, children.len() as int);
    assert(rest[0] == children[i]);
    assert(rest.subrange(1, rest.len() as int) =~= children.subrange(i + 1, children.len() as int));
    assert("  ("@ =~= seq![' ', ' ', '(']);
    assert(" B)"@ + seq!['\n'] =~= seq![' ', 'B', ')', '\n']);
    match children[i] {
        FileNode::File { name, size, .. } => {
            let c = if i == children.len() - 1 {
                last_connector()
            } else {
                mid_connector()
            };
            assert(prefix + c + name@ + "  ("@ + decimal(size as nat) + " B)"@ + seq!['\n'] =~= prefix + c + name@
                + seq![' ', ' ', '('] + decimal(size as nat) + seq![' ', 'B', ')', '\n']);
        },
        FileNode::Dir { .. } => {},
    }
}

} // verus!
