//! The textual configuration format, rendered and read line by line:
//!
//! ```text
//! modules:
//! -
//!   name: core
//!   current_version: {Semantic: 1.2.3}
//!   files:
//!   -
//!     path: src/a.rs
//!     search_pattern: version = (.*)
//!     replace_pattern: version = $1
//!     version: {Semantic: 1.2.3-beta+build.7}
//! ```
//!
//! An empty document means "no modules configured", which differs from
//! `modules: []`, the configured-but-empty store. Reading tolerates any
//! malformed document by falling back to the default store; writing is
//! total and deterministic, and writing then reading gives back exactly
//! the stores whose field values fit the format (see `StoreView::wf`).

use crate::chars::chars_eq;
use crate::chars::chars_of;
use crate::chars::chars_range;
use crate::chars::find;
use crate::chars::find_char;
use crate::chars::lemma_find_append;
use crate::chars::push_char;
use crate::chars::string_from_chars;
use crate::store::BvConfig;
use crate::store::FileView;
use crate::store::ModuleConfig;
use crate::store::ModuleFile;
use crate::store::ModuleView;
use crate::store::RegexPatterns;
use crate::store::RegexView;
use crate::store::SchemeView;
use crate::store::StoreView;
use crate::store::VersionScheme;
use crate::version::SemanticVersion;
use crate::version::sv_format;
use crate::version::sv_parse;
use vstd::prelude::*;
use vstd::string::StringExecFns;

verus! {

/// The top-level key line that opens the module list.
pub open spec fn key_modules() -> Seq<char> {
    seq!['m', 'o', 'd', 'u', 'l', 'e', 's', ':']
}

/// The one-line form of an empty module list.
pub open spec fn key_modules_empty() -> Seq<char> {
    seq!['m', 'o', 'd', 'u', 'l', 'e', 's', ':', ' ', '[', ']']
}

/// The line that opens one module entry.
pub open spec fn key_dash() -> Seq<char> {
    seq!['-']
}

/// Prefix of a module's name line.
pub open spec fn key_name() -> Seq<char> {
    seq![' ', ' ', 'n', 'a', 'm', 'e', ':', ' ']
}

/// Prefix of a module's version line, up to the version itself.
pub open spec fn key_module_version() -> Seq<char> {
    seq![' ', ' ', 'c', 'u', 'r', 'r', 'e', 'n', 't', '_', 'v', 'e', 'r', 's', 'i', 'o', 'n', ':',
        ' ', '{', 'S', 'e', 'm', 'a', 'n', 't', 'i', 'c', ':', ' ']
}

/// The line that opens a module's file list.
pub open spec fn key_files() -> Seq<char> {
    seq![' ', ' ', 'f', 'i', 'l', 'e', 's', ':']
}

/// The one-line form of an empty file list.
pub open spec fn key_files_empty() -> Seq<char> {
    seq![' ', ' ', 'f', 'i', 'l', 'e', 's', ':', ' ', '[', ']']
}

/// The line that opens one file entry.
pub open spec fn key_file_dash() -> Seq<char> {
    seq![' ', ' ', '-']
}

/// Prefix of a file's path line.
pub open spec fn key_path() -> Seq<char> {
    seq![' ', ' ', ' ', ' ', 'p', 'a', 't', 'h', ':', ' ']
}

/// Prefix of a file's search-pattern line.
pub open spec fn key_search() -> Seq<char> {
    seq![' ', ' ', ' ', ' ', 's', 'e', 'a', 'r', 'c', 'h', '_', 'p', 'a', 't', 't', 'e', 'r', 'n',
        ':', ' ']
}

/// Prefix of a file's replace-pattern line.
pub open spec fn key_replace() -> Seq<char> {
    seq![' ', ' ', ' ', ' ', 'r', 'e', 'p', 'l', 'a', 'c', 'e', '_', 'p', 'a', 't', 't', 'e', 'r',
        'n', ':', ' ']
}

/// Prefix of a file's version line, up to the version itself.
pub open spec fn key_file_version() -> Seq<char> {
    seq![' ', ' ', ' ', ' ', 'v', 'e', 'r', 's', 'i', 'o', 'n', ':', ' ', '{', 'S', 'e', 'm', 'a',
        'n', 't', 'i', 'c', ':', ' ']
}

/// A version line: the key, the rendered version, and the closing
/// brace of the scheme tag.
pub open spec fn scheme_line(key: Seq<char>, s: SchemeView) -> Seq<char> {
    match s {
        SchemeView::Semantic(v) => key + sv_format(v) + seq!['}'],
    }
}

/// The lines of one file entry.
pub open spec fn file_lines(f: FileView) -> Seq<Seq<char>> {
    seq![key_file_dash()] + seq![key_path() + f.path] + (match f.regex {
        Some(r) => (match r.search_pattern {
            Some(p) => seq![key_search() + p],
            None => Seq::<Seq<char>>::empty(),
        }) + (match r.replace_pattern {
            Some(p) => seq![key_replace() + p],
            None => Seq::<Seq<char>>::empty(),
        }),
        None => Seq::<Seq<char>>::empty(),
    }) + seq![scheme_line(key_file_version(), f.version)]
}

/// The lines of a file list, in order.
pub open spec fn files_lines(fs: Seq<FileView>) -> Seq<Seq<char>>
    decreases fs.len(),
{
    if fs.len() == 0 {
        Seq::<Seq<char>>::empty()
    } else {
        file_lines(fs[0]) + files_lines(fs.drop_first())
    }
}

/// The lines of one module entry.
pub open spec fn module_lines(m: ModuleView) -> Seq<Seq<char>> {
    seq![key_dash()] + (match m.name {
        Some(n) => seq![key_name() + n],
        None => Seq::<Seq<char>>::empty(),
    }) + (match m.current_version {
        Some(v) => seq![scheme_line(key_module_version(), v)],
        None => Seq::<Seq<char>>::empty(),
    }) + (match m.files {
        Some(fs) => if fs.len() == 0 {
            seq![key_files_empty()]
        } else {
            seq![key_files()] + files_lines(fs)
        },
        None => Seq::<Seq<char>>::empty(),
    })
}

/// The lines of a module list, in order.
pub open spec fn modules_lines(ms: Seq<ModuleView>) -> Seq<Seq<char>>
    decreases ms.len(),
{
    if ms.len() == 0 {
        Seq::<Seq<char>>::empty()
    } else {
        module_lines(ms[0]) + modules_lines(ms.drop_first())
    }
}

/// The lines of a whole store.
pub open spec fn store_lines(s: StoreView) -> Seq<Seq<char>> {
    match s.modules {
        None => Seq::<Seq<char>>::empty(),
        Some(ms) => if ms.len() == 0 {
            seq![key_modules_empty()]
        } else {
            seq![key_modules()] + modules_lines(ms)
        },
    }
}

/// Lines joined with a newline between each pair; no trailing newline.
pub open spec fn join_lines(ls: Seq<Seq<char>>) -> Seq<char>
    decreases ls.len(),
{
    if ls.len() == 0 {
        Seq::<char>::empty()
    } else if ls.len() == 1 {
        ls[0]
    } else {
        ls[0] + seq!['\n'] + join_lines(ls.drop_first())
    }
}

/// The full rendering of a store.
pub open spec fn emit_text(s: StoreView) -> Seq<char> {
    join_lines(store_lines(s))
}

/// Joining a concatenation splits over its parts.
pub proof fn lemma_join_append(l1: Seq<Seq<char>>, l2: Seq<Seq<char>>)
    requires
        l1.len() > 0,
        l2.len() > 0,
    ensures
        join_lines(l1 + l2) == join_lines(l1) + seq!['\n'] + join_lines(l2),
    decreases l1.len(),
{
    if l1.len() == 1 {
        assert((l1 + l2)[0] == l1[0]);
        assert((l1 + l2).drop_first() =~= l2);
        assert(join_lines(l1 + l2) =~= join_lines(l1) + seq!['\n'] + join_lines(l2));
    } else {
        lemma_join_append(l1.drop_first(), l2);
        assert((l1 + l2).drop_first() =~= l1.drop_first() + l2);
        assert((l1 + l2)[0] == l1[0]);
        assert(join_lines(l1 + l2) =~= join_lines(l1) + seq!['\n'] + join_lines(l2));
    }
}

/// Appending one more line to a joined non-empty line list.
pub proof fn lemma_join_push(ls: Seq<Seq<char>>, l: Seq<char>)
    requires
        ls.len() > 0,
    ensures
        join_lines(ls.push(l)) == join_lines(ls) + seq!['\n'] + l,
{
    assert(ls.push(l) =~= ls + seq![l]);
    lemma_join_append(ls, seq![l]);
    assert(join_lines(seq![l]) == l);
}

/// Appending the lines of a further file entry.
pub proof fn lemma_files_lines_snoc(fs: Seq<FileView>, f: FileView)
    ensures
        files_lines(fs.push(f)) == files_lines(fs) + file_lines(f),
    decreases fs.len(),
{
    if fs.len() == 0 {
        assert(fs.push(f)[0] == f);
        assert(fs.push(f).drop_first() =~= Seq::<FileView>::empty());
        assert(files_lines(Seq::<FileView>::empty()) == Seq::<Seq<char>>::empty());
        assert(files_lines(fs.push(f)) == file_lines(f) + Seq::<Seq<char>>::empty());
        assert(files_lines(fs.push(f)) =~= files_lines(fs) + file_lines(f));
    } else {
        lemma_files_lines_snoc(fs.drop_first(), f);
        assert(fs.push(f).drop_first() =~= fs.drop_first().push(f));
        assert(fs.push(f)[0] == fs[0]);
        assert(files_lines(fs.push(f)) =~= files_lines(fs) + file_lines(f));
    }
}

/// Appending the lines of a further module entry.
pub proof fn lemma_modules_lines_snoc(ms: Seq<ModuleView>, m: ModuleView)
    ensures
        modules_lines(ms.push(m)) == modules_lines(ms) + module_lines(m),
    decreases ms.len(),
{
    if ms.len() == 0 {
        assert(ms.push(m)[0] == m);
        assert(ms.push(m).drop_first() =~= Seq::<ModuleView>::empty());
        assert(modules_lines(Seq::<ModuleView>::empty()) == Seq::<Seq<char>>::empty());
        assert(modules_lines(ms.push(m)) == module_lines(m) + Seq::<Seq<char>>::empty());
        assert(modules_lines(ms.push(m)) =~= modules_lines(ms) + module_lines(m));
    } else {
        lemma_modules_lines_snoc(ms.drop_first(), m);
        assert(ms.push(m).drop_first() =~= ms.drop_first().push(m));
        assert(ms.push(m)[0] == ms[0]);
        assert(modules_lines(ms.push(m)) =~= modules_lines(ms) + module_lines(m));
    }
}


/// Writes the literal that `key_modules` describes.
fn put_modules_key(out: &mut String)
    ensures
        final(out)@ == old(out)@ + key_modules(),
{
    out.append("modules:");
    proof {
        reveal_strlit("modules:");
        assert(out@ =~= old(out)@ + key_modules());
    }
}

/// Writes the literal that `key_modules_empty` describes.
fn put_modules_empty_key(out: &mut String)
    ensures
        final(out)@ == old(out)@ + key_modules_empty(),
{
    out.append("modules: []");
    proof {
        reveal_strlit("modules: []");
        assert(out@ =~= old(out)@ + key_modules_empty());
    }
}

/// Writes the literal that `key_name` describes.
fn put_name_key(out: &mut String)
    ensures
        final(out)@ == old(out)@ + key_name(),
{
    out.append("  name: ");
    proof {
        reveal_strlit("  name: ");
        assert(out@ =~= old(out)@ + key_name());
    }
}

/// Writes the literal that `key_module_version` describes.
fn put_module_version_key(out: &mut String)
    ensures
        final(out)@ == old(out)@ + key_module_version(),
{
    out.append("  current_version: {Semantic: ");
    proof {
        reveal_strlit("  current_version: {Semantic: ");
        assert(out@ =~= old(out)@ + key_module_version());
    }
}

/// Writes the literal that `key_files` describes.
fn put_files_key(out: &mut String)
    ensures
        final(out)@ == old(out)@ + key_files(),
{
    out.append("  files:");
    proof {
        reveal_strlit("  files:");
        assert(out@ =~= old(out)@ + key_files());
    }
}

/// Writes the literal that `key_files_empty` describes.
fn put_files_empty_key(out: &mut String)
    ensures
        final(out)@ == old(out)@ + key_files_empty(),
{
    out.append("  files: []");
    proof {
        reveal_strlit("  files: []");
        assert(out@ =~= old(out)@ + key_files_empty());
    }
}

/// Writes the literal that `key_file_dash` describes.
fn put_file_dash_key(out: &mut String)
    ensures
        final(out)@ == old(out)@ + key_file_dash(),
{
    out.append("  -");
    proof {
        reveal_strlit("  -");
        assert(out@ =~= old(out)@ + key_file_dash());
    }
}

/// Writes the literal that `key_path` describes.
fn put_path_key(out: &mut String)
    ensures
        final(out)@ == old(out)@ + key_path(),
{
    out.append("    path: ");
    proof {
        reveal_strlit("    path: ");
        assert(out@ =~= old(out)@ + key_path());
    }
}

/// Writes the literal that `key_search` describes.
fn put_search_key(out: &mut String)
    ensures
        final(out)@ == old(out)@ + key_search(),
{
    out.append("    search_pattern: ");
    proof {
        reveal_strlit("    search_pattern: ");
        assert(out@ =~= old(out)@ + key_search());
    }
}

/// Writes the literal that `key_replace` describes.
fn put_replace_key(out: &mut String)
    ensures
        final(out)@ == old(out)@ + key_replace(),
{
    out.append("    replace_pattern: ");
    proof {
        reveal_strlit("    replace_pattern: ");
        assert(out@ =~= old(out)@ + key_replace());
    }
}

/// Writes the literal that `key_file_version` describes.
fn put_file_version_key(out: &mut String)
    ensures
        final(out)@ == old(out)@ + key_file_version(),
{
    out.append("    version: {Semantic: ");
    proof {
        reveal_strlit("    version: {Semantic: ");
        assert(out@ =~= old(out)@ + key_file_version());
    }
}

/// Writes the rendered version and the closing brace of its scheme
/// tag.
fn put_scheme_body(out: &mut String, vs: &VersionScheme)
    ensures
        final(out)@ == old(out)@ + (match vs@ {
            SchemeView::Semantic(v) => sv_format(v) + seq!['}'],
        }),
{
    match vs {
        VersionScheme::Semantic(sv) => {
            sv.push_format(out);
            push_char(out, '}');
            assert(out@ =~= old(out)@ + sv_format(sv@) + seq!['}']);
        },
    }
}

/// Appends a newline and the lines of one file entry.
#[verifier::rlimit(100)]
#[verifier::spinoff_prover]
fn emit_file(out: &mut String, f: &ModuleFile)
    ensures
        final(out)@ == old(out)@ + seq!['\n'] + join_lines(file_lines(f.deep_view())),
{
    let ghost fv = f.deep_view();
    push_char(out, '\n');
    put_file_dash_key(out);
    let ghost mut lines: Seq<Seq<char>> = seq![key_file_dash()];
    assert(out@ =~= old(out)@ + seq!['\n'] + join_lines(lines));

    push_char(out, '\n');
    put_path_key(out);
    out.append(f.path.as_str());
    proof {
        lemma_join_push(lines, key_path() + f.path@);
        lines = lines.push(key_path() + fv.path);
        assert(out@ =~= old(out)@ + seq!['\n'] + join_lines(lines));
    }

    match &f.regex {
        Some(r) => {
            match &r.search_pattern {
                Some(p) => {
                    push_char(out, '\n');
                    put_search_key(out);
                    out.append(p.as_str());
                    proof {
                        lemma_join_push(lines, key_search() + p@);
                        lines = lines.push(key_search() + p@);
                        assert(out@ =~= old(out)@ + seq!['\n'] + join_lines(lines));
                    }
                },
                None => {},
            }
            match &r.replace_pattern {
                Some(p) => {
                    push_char(out, '\n');
                    put_replace_key(out);
                    out.append(p.as_str());
                    proof {
                        lemma_join_push(lines, key_replace() + p@);
                        lines = lines.push(key_replace() + p@);
                        assert(out@ =~= old(out)@ + seq!['\n'] + join_lines(lines));
                    }
                },
                None => {},
            }
        },
        None => {},
    }

    push_char(out, '\n');
    put_file_version_key(out);
    put_scheme_body(out, &f.version);
    proof {
        lemma_join_push(lines, scheme_line(key_file_version(), fv.version));
        lines = lines.push(scheme_line(key_file_version(), fv.version));
        assert(out@ =~= old(out)@ + seq!['\n'] + join_lines(lines));
    }

    assert(lines =~= file_lines(fv));
}

/// Appends a newline and the lines of one module entry.
#[verifier::rlimit(100)]
#[verifier::spinoff_prover]
fn emit_module(out: &mut String, m: &ModuleConfig)
    ensures
        final(out)@ == old(out)@ + seq!['\n'] + join_lines(module_lines(m.deep_view())),
{
    let ghost mv = m.deep_view();
    push_char(out, '\n');
    push_char(out, '-');
    let ghost mut lines: Seq<Seq<char>> = seq![key_dash()];
    assert(out@ =~= old(out)@ + seq!['\n'] + join_lines(lines));

    match &m.name {
        Some(n) => {
            push_char(out, '\n');
            put_name_key(out);
            out.append(n.as_str());
            proof {
                lemma_join_push(lines, key_name() + n@);
                lines = lines.push(key_name() + n@);
                assert(out@ =~= old(out)@ + seq!['\n'] + join_lines(lines));
            }
        },
        None => {},
    }

    match &m.current_version {
        Some(vs) => {
            push_char(out, '\n');
            put_module_version_key(out);
            put_scheme_body(out, vs);
            proof {
                lemma_join_push(lines, scheme_line(key_module_version(), vs@));
                lines = lines.push(scheme_line(key_module_version(), vs@));
                assert(out@ =~= old(out)@ + seq!['\n'] + join_lines(lines));
            }
        },
        None => {},
    }

    match &m.files {
        Some(fs) => {
            if fs.len() == 0 {
                push_char(out, '\n');
                put_files_empty_key(out);
                proof {
                    lemma_join_push(lines, key_files_empty());
                    lines = lines.push(key_files_empty());
                    assert(out@ =~= old(out)@ + seq!['\n'] + join_lines(lines));
                }
            } else {
                push_char(out, '\n');
                put_files_key(out);
                proof {
                    lemma_join_push(lines, key_files());
                    lines = lines.push(key_files());
                    assert(out@ =~= old(out)@ + seq!['\n'] + join_lines(lines));
                }
                let ghost base = lines;
                let ghost fsv = fs.deep_view();
                let mut j: usize = 0;
                while j < fs.len()
                    invariant
                        j <= fs.len(),
                        fsv == fs.deep_view(),
                        fsv.len() == fs.len(),
                        base.len() > 0,
                        lines == base + files_lines(fsv.take(j as int)),
                        out@ == old(out)@ + seq!['\n'] + join_lines(lines),
                    decreases fs.len() - j,
                {
                    emit_file(out, &fs[j]);
                    proof {
                        assert(fs[j as int].deep_view() == fsv[j as int]);
                        lemma_join_append(lines, file_lines(fsv[j as int]));
                        lemma_files_lines_snoc(fsv.take(j as int), fsv[j as int]);
                        assert(fsv.take(j as int).push(fsv[j as int]) =~= fsv.take(j + 1));
                        lines = lines + file_lines(fsv[j as int]);
                        assert(lines =~= base + files_lines(fsv.take(j + 1)));
                    }
                    j = j + 1;
                }
                proof {
                    assert(fsv.take(fs.len() as int) =~= fsv);
                    assert(lines =~= base + files_lines(fsv));
                }
            }
        },
        None => {},
    }

    assert(lines =~= module_lines(mv));
}

impl BvConfig {
    /// Renders the store to its textual configuration form; see the
    /// module description for the grammar.
    pub fn to_text(&self) -> (r: String)
        ensures
            r@ == emit_text(self@),
    {
        match &self.modules {
            None => {
                let out = String::new();
                assert(out@ =~= emit_text(self@));
                out
            },
            Some(ms) => {
                if ms.len() == 0 {
                    let mut out = String::new();
                    put_modules_empty_key(&mut out);
                    proof {
                        assert(ms.deep_view().len() == 0);
                        assert(store_lines(self@) =~= seq![key_modules_empty()]);
                        assert(out@ =~= emit_text(self@));
                    }
                    out
                } else {
                    let mut out = String::new();
                    put_modules_key(&mut out);
                    let ghost msv = ms.deep_view();
                    let ghost mut lines: Seq<Seq<char>> = seq![key_modules()];
                    assert(out@ =~= join_lines(lines));
                    let mut i: usize = 0;
                    while i < ms.len()
                        invariant
                            i <= ms.len(),
                            msv == ms.deep_view(),
                            msv.len() == ms.len(),
                            lines == seq![key_modules()] + modules_lines(msv.take(i as int)),
                            lines.len() > 0,
                            out@ == join_lines(lines),
                        decreases ms.len() - i,
                    {
                        emit_module(&mut out, &ms[i]);
                        proof {
                            assert(ms[i as int].deep_view() == msv[i as int]);
                            lemma_join_append(lines, module_lines(msv[i as int]));
                            lemma_modules_lines_snoc(msv.take(i as int), msv[i as int]);
                            assert(msv.take(i as int).push(msv[i as int]) =~= msv.take(i + 1));
                            lines = lines + module_lines(msv[i as int]);
                            assert(lines =~= seq![key_modules()] + modules_lines(
                                msv.take(i + 1),
                            ));
                        }
                        i = i + 1;
                    }
                    proof {
                        assert(msv.take(ms.len() as int) =~= msv);
                        assert(store_lines(self@) == seq![key_modules()] + modules_lines(msv));
                    }
                    out
                }
            },
        }
    }
}


/// The value after a fixed key prefix, when the line starts with it.
pub open spec fn strip_prefix(line: Seq<char>, key: Seq<char>) -> Option<Seq<char>> {
    if line.len() >= key.len() && line.take(key.len() as int) == key {
        Some(line.skip(key.len() as int))
    } else {
        None
    }
}

/// The version read from a `{Semantic: ...}` line with the given key;
/// `None` when the line has another shape or the version is
/// malformed.
pub open spec fn parse_scheme_line(line: Seq<char>, key: Seq<char>) -> Option<SchemeView> {
    match strip_prefix(line, key) {
        Some(rest) => if rest.len() >= 1 && rest.last() == '}' {
            match sv_parse(rest.drop_last()) {
                Ok(v) => Some(SchemeView::Semantic(v)),
                Err(_) => None,
            }
        } else {
            None
        },
        None => None,
    }
}

/// One file entry read from the lines after its dash line: the entry
/// and the index of the first line after it.
pub open spec fn parse_file_at(ls: Seq<Seq<char>>, i: int) -> Option<(FileView, int)> {
    if i + 1 >= ls.len() {
        None
    } else {
        match strip_prefix(ls[i + 1], key_path()) {
            None => None,
            Some(path) => {
                let (search, j2) = if i + 2 < ls.len() && strip_prefix(ls[i + 2], key_search())
                    is Some {
                    (strip_prefix(ls[i + 2], key_search()), i + 3)
                } else {
                    (None::<Seq<char>>, i + 2)
                };
                let (replace, j3) = if j2 < ls.len() && strip_prefix(ls[j2], key_replace())
                    is Some {
                    (strip_prefix(ls[j2], key_replace()), j2 + 1)
                } else {
                    (None::<Seq<char>>, j2)
                };
                if j3 >= ls.len() {
                    None
                } else {
                    match parse_scheme_line(ls[j3], key_file_version()) {
                        None => None,
                        Some(v) => {
                            let regex = if search is None && replace is None {
                                None::<RegexView>
                            } else {
                                Some(
                                    RegexView {
                                        replace_pattern: replace,
                                        search_pattern: search,
                                    },
                                )
                            };
                            Some(
                                (
                                    FileView { path: path, regex: regex, version: v },
                                    j3 + 1,
                                ),
                            )
                        },
                    }
                }
            },
        }
    }
}

/// A successfully read file entry spans at least three lines and stays
/// inside the document.
pub proof fn lemma_parse_file_at_range(ls: Seq<Seq<char>>, i: int)
    ensures
        parse_file_at(ls, i) matches Some(p) ==> i + 3 <= p.1 <= ls.len(),
{
}

/// File entries read from consecutive dash lines, and the index of
/// the first line that opens no further entry.
pub open spec fn parse_files_at(ls: Seq<Seq<char>>, i: int) -> Option<(Seq<FileView>, int)>
    decreases ls.len() - i,
{
    if i < 0 || i >= ls.len() || ls[i] != key_file_dash() {
        Some((Seq::<FileView>::empty(), i))
    } else {
        match parse_file_at(ls, i) {
            None => None,
            Some(p) => {
                let jj = if i < p.1 <= ls.len() {
                    p.1
                } else {
                    i + 1
                };
                match parse_files_at(ls, jj) {
                    None => None,
                    Some(rest) => Some((seq![p.0] + rest.0, rest.1)),
                }
            },
        }
    }
}

/// Reading a file list never steps backwards nor past the document.
pub proof fn lemma_parse_files_at_range(ls: Seq<Seq<char>>, i: int)
    requires
        0 <= i <= ls.len(),
    ensures
        parse_files_at(ls, i) matches Some(p) ==> i <= p.1 <= ls.len(),
    decreases ls.len() - i,
{
    if !(i < 0 || i >= ls.len() || ls[i] != key_file_dash()) {
        match parse_file_at(ls, i) {
            None => {},
            Some(p) => {
                lemma_parse_file_at_range(ls, i);
                lemma_parse_files_at_range(ls, p.1);
            },
        }
    }
}

/// One module entry read from the lines after its dash line: the
/// entry and the index of the first line after it.
pub open spec fn parse_module_at(ls: Seq<Seq<char>>, i: int) -> Option<(ModuleView, int)> {
    let (name, j1) = if i + 1 < ls.len() && strip_prefix(ls[i + 1], key_name()) is Some {
        (strip_prefix(ls[i + 1], key_name()), i + 2)
    } else {
        (None::<Seq<char>>, i + 1)
    };
    if j1 < ls.len() && strip_prefix(ls[j1], key_module_version()) is Some {
        match parse_scheme_line(ls[j1], key_module_version()) {
            None => None,
            Some(v) => parse_module_files(ls, i, name, Some(v), j1 + 1),
        }
    } else {
        parse_module_files(ls, i, name, None, j1)
    }
}

/// The file-list part of a module entry, then the assembled module.
pub open spec fn parse_module_files(
    ls: Seq<Seq<char>>,
    i: int,
    name: Option<Seq<char>>,
    version: Option<SchemeView>,
    j2: int,
) -> Option<(ModuleView, int)> {
    if j2 < ls.len() && ls[j2] == key_files_empty() {
        Some(
            (
                ModuleView {
                    current_version: version,
                    files: Some(Seq::<FileView>::empty()),
                    name: name,
                },
                j2 + 1,
            ),
        )
    } else if j2 < ls.len() && ls[j2] == key_files() {
        match parse_files_at(ls, j2 + 1) {
            None => None,
            Some(p) => Some(
                (ModuleView { current_version: version, files: Some(p.0), name: name }, p.1),
            ),
        }
    } else {
        Some((ModuleView { current_version: version, files: None, name: name }, j2))
    }
}

/// Reading a module entry always moves forward and stays inside the
/// document.
pub proof fn lemma_parse_module_at_range(ls: Seq<Seq<char>>, i: int)
    requires
        0 <= i < ls.len(),
    ensures
        parse_module_at(ls, i) matches Some(p) ==> i + 1 <= p.1 <= ls.len(),
{
    let (name, j1) = if i + 1 < ls.len() && strip_prefix(ls[i + 1], key_name()) is Some {
        (strip_prefix(ls[i + 1], key_name()), i + 2)
    } else {
        (None::<Seq<char>>, i + 1)
    };
    if j1 < ls.len() && strip_prefix(ls[j1], key_module_version()) is Some {
        lemma_parse_module_files_range(ls, i, name, j1 + 1);
    } else {
        lemma_parse_module_files_range(ls, i, name, j1);
    }
}

/// Range bound for the file-list part of a module entry.
pub proof fn lemma_parse_module_files_range(
    ls: Seq<Seq<char>>,
    i: int,
    name: Option<Seq<char>>,
    j2: int,
)
    requires
        0 <= i < j2 <= ls.len() + 1,
    ensures
        forall|version: Option<SchemeView>|
            #[trigger] parse_module_files(ls, i, name, version, j2) matches Some(p) ==> i + 1
                <= p.1 <= ls.len() || p.1 == j2,
{
    if j2 < ls.len() && !(ls[j2] == key_files_empty()) && ls[j2] == key_files() {
        lemma_parse_files_at_range(ls, j2 + 1);
    }
}


/// Module entries read from consecutive dash lines, and the index of
/// the first line that opens no further entry.
pub open spec fn parse_modules_at(ls: Seq<Seq<char>>, i: int) -> Option<(Seq<ModuleView>, int)>
    decreases ls.len() - i,
{
    if i < 0 || i >= ls.len() || ls[i] != key_dash() {
        Some((Seq::<ModuleView>::empty(), i))
    } else {
        match parse_module_at(ls, i) {
            None => None,
            Some(p) => {
                let jj = if i < p.1 <= ls.len() {
                    p.1
                } else {
                    i + 1
                };
                match parse_modules_at(ls, jj) {
                    None => None,
                    Some(rest) => Some((seq![p.0] + rest.0, rest.1)),
                }
            },
        }
    }
}

/// The store read from a document's lines: an empty document is the
/// default store, one `modules: []` line is the configured-but-empty
/// store, and otherwise the module list must open the document and
/// run to its end.
pub open spec fn parse_store(ls: Seq<Seq<char>>) -> Option<StoreView> {
    if ls.len() == 0 || (ls.len() == 1 && ls[0].len() == 0) {
        Some(StoreView { modules: None })
    } else if ls.len() == 1 && ls[0] == key_modules_empty() {
        Some(StoreView { modules: Some(Seq::<ModuleView>::empty()) })
    } else if ls[0] == key_modules() {
        match parse_modules_at(ls, 1) {
            None => None,
            Some(p) => if p.1 == ls.len() {
                Some(StoreView { modules: Some(p.0) })
            } else {
                None
            },
        }
    } else {
        None
    }
}

/// A document's lines: split at every newline; a document without a
/// newline is one line.
pub open spec fn split_lines(s: Seq<char>) -> Seq<Seq<char>>
    decreases s.len(),
{
    match find(s, '\n') {
        None => seq![s],
        Some(i) => {
            let k = if 0 <= i < s.len() {
                i
            } else {
                0
            };
            seq![s.take(k)] + split_lines(s.skip(k + 1))
        },
    }
}

/// The store read from a document, when the document is well-formed.
pub open spec fn parse_text(t: Seq<char>) -> Option<StoreView> {
    parse_store(split_lines(t))
}


/// The characters of `key_modules`.
fn key_modules_vec() -> (r: Vec<char>)
    ensures
        r@ == key_modules(),
{
    let r = chars_of("modules:");
    proof {
        reveal_strlit("modules:");
        assert(r@ =~= key_modules());
    }
    r
}

/// The characters of `key_modules_empty`.
fn key_modules_empty_vec() -> (r: Vec<char>)
    ensures
        r@ == key_modules_empty(),
{
    let r = chars_of("modules: []");
    proof {
        reveal_strlit("modules: []");
        assert(r@ =~= key_modules_empty());
    }
    r
}

/// The characters of `key_dash`.
fn key_dash_vec() -> (r: Vec<char>)
    ensures
        r@ == key_dash(),
{
    let r = chars_of("-");
    proof {
        reveal_strlit("-");
        assert(r@ =~= key_dash());
    }
    r
}

/// The characters of `key_name`.
fn key_name_vec() -> (r: Vec<char>)
    ensures
        r@ == key_name(),
{
    let r = chars_of("  name: ");
    proof {
        reveal_strlit("  name: ");
        assert(r@ =~= key_name());
    }
    r
}

/// The characters of `key_module_version`.
fn key_module_version_vec() -> (r: Vec<char>)
    ensures
        r@ == key_module_version(),
{
    let r = chars_of("  current_version: {Semantic: ");
    proof {
        reveal_strlit("  current_version: {Semantic: ");
        assert(r@ =~= key_module_version());
    }
    r
}

/// The characters of `key_files`.
fn key_files_vec() -> (r: Vec<char>)
    ensures
        r@ == key_files(),
{
    let r = chars_of("  files:");
    proof {
        reveal_strlit("  files:");
        assert(r@ =~= key_files());
    }
    r
}

/// The characters of `key_files_empty`.
fn key_files_empty_vec() -> (r: Vec<char>)
    ensures
        r@ == key_files_empty(),
{
    let r = chars_of("  files: []");
    proof {
        reveal_strlit("  files: []");
        assert(r@ =~= key_files_empty());
    }
    r
}

/// The characters of `key_file_dash`.
fn key_file_dash_vec() -> (r: Vec<char>)
    ensures
        r@ == key_file_dash(),
{
    let r = chars_of("  -");
    proof {
        reveal_strlit("  -");
        assert(r@ =~= key_file_dash());
    }
    r
}

/// The characters of `key_path`.
fn key_path_vec() -> (r: Vec<char>)
    ensures
        r@ == key_path(),
{
    let r = chars_of("    path: ");
    proof {
        reveal_strlit("    path: ");
        assert(r@ =~= key_path());
    }
    r
}

/// The characters of `key_search`.
fn key_search_vec() -> (r: Vec<char>)
    ensures
        r@ == key_search(),
{
    let r = chars_of("    search_pattern: ");
    proof {
        reveal_strlit("    search_pattern: ");
        assert(r@ =~= key_search());
    }
    r
}

/// The characters of `key_replace`.
fn key_replace_vec() -> (r: Vec<char>)
    ensures
        r@ == key_replace(),
{
    let r = chars_of("    replace_pattern: ");
    proof {
        reveal_strlit("    replace_pattern: ");
        assert(r@ =~= key_replace());
    }
    r
}

/// The characters of `key_file_version`.
fn key_file_version_vec() -> (r: Vec<char>)
    ensures
        r@ == key_file_version(),
{
    let r = chars_of("    version: {Semantic: ");
    proof {
        reveal_strlit("    version: {Semantic: ");
        assert(r@ =~= key_file_version());
    }
    r
}

/// The value after the key, when the line starts with the key.
fn strip_prefix_exec(line: &[char], key: &[char]) -> (r: Option<Vec<char>>)
    ensures
        match strip_prefix(line@, key@) {
            Some(v) => r matches Some(rv) && rv@ == v,
            None => r is None,
        },
{
    if line.len() < key.len() {
        return None;
    }
    let head = vstd::slice::slice_subrange(line, 0, key.len());
    proof {
        assert(head@ =~= line@.take(key@.len() as int));
    }
    if chars_eq(head, key) {
        Some(chars_range(line, key.len(), line.len()))
    } else {
        None
    }
}

/// The version in a `{Semantic: ...}` line with the given key.
fn read_scheme_line(line: &[char], key: &[char]) -> (r: Option<VersionScheme>)
    ensures
        match parse_scheme_line(line@, key@) {
            Some(v) => r matches Some(vs) && vs@ == v,
            None => r is None,
        },
{
    match strip_prefix_exec(line, key) {
        None => None,
        Some(rest) => {
            if rest.len() == 0 {
                return None;
            }
            if rest[rest.len() - 1] != '}' {
                proof {
                    assert(rest@.last() != '}');
                }
                return None;
            }
            let body = vstd::slice::slice_subrange(rest.as_slice(), 0, rest.len() - 1);
            proof {
                assert(body@ =~= rest@.drop_last());
                assert(rest@.last() == '}');
            }
            match SemanticVersion::parse_chars(body) {
                Ok(sv) => Some(VersionScheme::Semantic(sv)),
                Err(_) => None,
            }
        },
    }
}

/// A string built from an optional character vector.
fn opt_chars_to_string(o: Option<Vec<char>>) -> (r: Option<String>)
    ensures
        match o {
            Some(v) => r matches Some(s) && s@ == v@,
            None => r is None,
        },
{
    match o {
        Some(v) => Some(string_from_chars(v.as_slice())),
        None => None,
    }
}


/// A line of the list, seen through the list's deep view.
proof fn lemma_lsv(lines: &Vec<Vec<char>>, j: int)
    requires
        0 <= j < lines@.len(),
    ensures
        lines.deep_view().len() == lines@.len(),
        lines.deep_view()[j] == lines@[j]@,
{
    assert(lines@[j].deep_view() =~= lines@[j]@);
}

/// One file entry, read starting at its dash line.
fn read_file_at(lines: &Vec<Vec<char>>, i: usize) -> (r: Option<(ModuleFile, usize)>)
    requires
        i < lines@.len(),
    ensures
        match parse_file_at(lines.deep_view(), i as int) {
            Some(p) => r matches Some(q) && q.0.deep_view() == p.0 && q.1 == p.1,
            None => r is None,
        },
{
    let ghost lsv = lines.deep_view();
    let n = lines.len();
    if n - i < 2 {
        return None;
    }
    proof {
        lemma_lsv(lines, i + 1);
    }
    let kp = key_path_vec();
    let path_cs = match strip_prefix_exec(lines[i + 1].as_slice(), kp.as_slice()) {
        None => {
            return None;
        },
        Some(p) => p,
    };
    let mut j: usize = i + 2;
    let mut search_cs: Option<Vec<char>> = None;
    if j < n {
        proof {
            lemma_lsv(lines, j as int);
        }
        let ks = key_search_vec();
        match strip_prefix_exec(lines[j].as_slice(), ks.as_slice()) {
            Some(p) => {
                search_cs = Some(p);
                j = j + 1;
            },
            None => {},
        }
    }
    let mut replace_cs: Option<Vec<char>> = None;
    if j < n {
        proof {
            lemma_lsv(lines, j as int);
        }
        let kr = key_replace_vec();
        match strip_prefix_exec(lines[j].as_slice(), kr.as_slice()) {
            Some(p) => {
                replace_cs = Some(p);
                j = j + 1;
            },
            None => {},
        }
    }
    if j >= n {
        return None;
    }
    proof {
        lemma_lsv(lines, j as int);
    }
    let kv = key_file_version_vec();
    let vs = match read_scheme_line(lines[j].as_slice(), kv.as_slice()) {
        None => {
            return None;
        },
        Some(v) => v,
    };
    let has_regex = search_cs.is_some() || replace_cs.is_some();
    let search_s = opt_chars_to_string(search_cs);
    let replace_s = opt_chars_to_string(replace_cs);
    let regex = if has_regex {
        Some(RegexPatterns { replace_pattern: replace_s, search_pattern: search_s })
    } else {
        None
    };
    let mf = ModuleFile {
        path: string_from_chars(path_cs.as_slice()),
        regex: regex,
        version: vs,
    };
    Some((mf, j + 1))
}

/// File entries read from consecutive dash lines.
fn read_files_at(lines: &Vec<Vec<char>>, i: usize) -> (r: Option<(Vec<ModuleFile>, usize)>)
    requires
        i <= lines@.len(),
    ensures
        match parse_files_at(lines.deep_view(), i as int) {
            Some(p) => r matches Some(q) && q.0.deep_view() == p.0 && q.1 == p.1,
            None => r is None,
        },
    decreases lines@.len() - i,
{
    let ghost lsv = lines.deep_view();
    let n = lines.len();
    if i >= n {
        let out: Vec<ModuleFile> = Vec::new();
        proof {
            assert(out.deep_view() =~= Seq::<FileView>::empty());
        }
        return Some((out, i));
    }
    proof {
        lemma_lsv(lines, i as int);
    }
    let kd = key_file_dash_vec();
    if !chars_eq(lines[i].as_slice(), kd.as_slice()) {
        let out: Vec<ModuleFile> = Vec::new();
        proof {
            assert(out.deep_view() =~= Seq::<FileView>::empty());
        }
        return Some((out, i));
    }
    match read_file_at(lines, i) {
        None => None,
        Some((f, j)) => {
            proof {
                lemma_parse_file_at_range(lsv, i as int);
            }
            match read_files_at(lines, j) {
                None => None,
                Some((rest, end)) => {
                    let mut out = rest;
                    let ghost prev_dv = out.deep_view();
                    out.insert(0, f);
                    proof {
                        assert(out.deep_view() =~= seq![f.deep_view()] + prev_dv);
                    }
                    Some((out, end))
                },
            }
        },
    }
}

/// One module entry, read starting at its dash line.
fn read_module_at(lines: &Vec<Vec<char>>, i: usize) -> (r: Option<(ModuleConfig, usize)>)
    requires
        i < lines@.len(),
    ensures
        match parse_module_at(lines.deep_view(), i as int) {
            Some(p) => r matches Some(q) && q.0.deep_view() == p.0 && q.1 == p.1,
            None => r is None,
        },
{
    let ghost lsv = lines.deep_view();
    let n = lines.len();
    let mut j: usize = i + 1;
    let mut name_cs: Option<Vec<char>> = None;
    if j < n {
        proof {
            lemma_lsv(lines, j as int);
        }
        let kn = key_name_vec();
        match strip_prefix_exec(lines[j].as_slice(), kn.as_slice()) {
            Some(p) => {
                name_cs = Some(p);
                j = j + 1;
            },
            None => {},
        }
    }
    let mut version: Option<VersionScheme> = None;
    if j < n {
        proof {
            lemma_lsv(lines, j as int);
        }
        let km = key_module_version_vec();
        match strip_prefix_exec(lines[j].as_slice(), km.as_slice()) {
            Some(_) => {
                match read_scheme_line(lines[j].as_slice(), km.as_slice()) {
                    None => {
                        return None;
                    },
                    Some(v) => {
                        version = Some(v);
                        j = j + 1;
                    },
                }
            },
            None => {},
        }
    }
    let mut files: Option<Vec<ModuleFile>> = None;
    let mut end: usize = j;
    if j < n {
        proof {
            lemma_lsv(lines, j as int);
        }
        let kfe = key_files_empty_vec();
        let kf = key_files_vec();
        if chars_eq(lines[j].as_slice(), kfe.as_slice()) {
            let fs: Vec<ModuleFile> = Vec::new();
            proof {
                assert(fs.deep_view() =~= Seq::<FileView>::empty());
            }
            files = Some(fs);
            end = j + 1;
        } else if chars_eq(lines[j].as_slice(), kf.as_slice()) {
            match read_files_at(lines, j + 1) {
                None => {
                    return None;
                },
                Some((fs, e)) => {
                    files = Some(fs);
                    end = e;
                },
            }
        }
    }
    let name_s = opt_chars_to_string(name_cs);
    let mc = ModuleConfig { current_version: version, files: files, name: name_s };
    Some((mc, end))
}

/// Module entries read from consecutive dash lines.
fn read_modules_at(lines: &Vec<Vec<char>>, i: usize) -> (r: Option<(Vec<ModuleConfig>, usize)>)
    requires
        i <= lines@.len(),
    ensures
        match parse_modules_at(lines.deep_view(), i as int) {
            Some(p) => r matches Some(q) && q.0.deep_view() == p.0 && q.1 == p.1,
            None => r is None,
        },
    decreases lines@.len() - i,
{
    let ghost lsv = lines.deep_view();
    let n = lines.len();
    if i >= n {
        let out: Vec<ModuleConfig> = Vec::new();
        proof {
            assert(out.deep_view() =~= Seq::<ModuleView>::empty());
        }
        return Some((out, i));
    }
    proof {
        lemma_lsv(lines, i as int);
    }
    let kd = key_dash_vec();
    if !chars_eq(lines[i].as_slice(), kd.as_slice()) {
        let out: Vec<ModuleConfig> = Vec::new();
        proof {
            assert(out.deep_view() =~= Seq::<ModuleView>::empty());
        }
        return Some((out, i));
    }
    match read_module_at(lines, i) {
        None => None,
        Some((m, j)) => {
            proof {
                lemma_parse_module_at_range(lsv, i as int);
            }
            match read_modules_at(lines, j) {
                None => None,
                Some((rest, end)) => {
                    let mut out = rest;
                    let ghost prev_dv = out.deep_view();
                    out.insert(0, m);
                    proof {
                        assert(out.deep_view() =~= seq![m.deep_view()] + prev_dv);
                    }
                    Some((out, end))
                },
            }
        },
    }
}

/// The document's lines, split at every newline.
fn split_text_lines(s: &[char]) -> (r: Vec<Vec<char>>)
    ensures
        r.deep_view() == split_lines(s@),
    decreases s@.len(),
{
    let n = s.len();
    match find_char(s, '\n') {
        None => {
            let mut out: Vec<Vec<char>> = Vec::new();
            out.push(chars_range(s, 0, n));
            proof {
                assert(s@.subrange(0, s@.len() as int) =~= s@);
                assert(out@[0]@ =~= s@);
                assert(out@[0].deep_view() =~= s@);
                assert(out.deep_view() =~= seq![s@]);
            }
            out
        },
        Some(i) => {
            let head = chars_range(s, 0, i);
            let mut tail = split_text_lines(vstd::slice::slice_subrange(s, i + 1, n));
            let ghost tail_dv = tail.deep_view();
            let mut out: Vec<Vec<char>> = Vec::new();
            out.push(head);
            out.append(&mut tail);
            proof {
                assert(s@.subrange(i + 1, s@.len() as int) =~= s@.skip(i + 1));
                assert(out@[0]@ =~= s@.take(i as int));
                assert(out@[0].deep_view() =~= s@.take(i as int));
                assert(out.deep_view() =~= seq![s@.take(i as int)] + tail_dv);
            }
            out
        },
    }
}

impl BvConfig {
    /// Reads a store from configuration text; `None` when the text
    /// does not fit the grammar.
    pub fn parse_config(text: &str) -> (r: Option<BvConfig>)
        ensures
            match parse_text(text@) {
                Some(v) => r matches Some(c) && c@ == v,
                None => r is None,
            },
    {
        let cs = chars_of(text);
        let lines = split_text_lines(cs.as_slice());
        let ghost lsv = lines.deep_view();
        let n = lines.len();
        if n == 0 {
            return Some(BvConfig { modules: None });
        }
        proof {
            lemma_lsv(&lines, 0);
        }
        if n == 1 && lines[0].len() == 0 {
            return Some(BvConfig { modules: None });
        }
        let kme = key_modules_empty_vec();
        if n == 1 && chars_eq(lines[0].as_slice(), kme.as_slice()) {
            let v: Vec<ModuleConfig> = Vec::new();
            proof {
                assert(v.deep_view() =~= Seq::<ModuleView>::empty());
            }
            return Some(BvConfig { modules: Some(v) });
        }
        let km = key_modules_vec();
        if chars_eq(lines[0].as_slice(), km.as_slice()) {
            match read_modules_at(&lines, 1) {
                None => None,
                Some((ms, end)) => {
                    if end == n {
                        Some(BvConfig { modules: Some(ms) })
                    } else {
                        None
                    }
                },
            }
        } else {
            None
        }
    }

    /// Loads a store from configuration text. Loading never fails: a
    /// document that does not fit the grammar yields the default
    /// store, exactly as a missing or unreadable file does.
    pub fn from_text(text: &str) -> (r: BvConfig)
        ensures
            match parse_text(text@) {
                Some(v) => r@ == v,
                None => r@ == StoreView::default_view(),
            },
    {
        match Self::parse_config(text) {
            Some(c) => c,
            None => BvConfig::default(),
        }
    }
}


/// Every line is free of newlines.
pub open spec fn lines_clean(ls: Seq<Seq<char>>) -> bool {
    forall|k: int| 0 <= k < ls.len() ==> #[trigger] find(ls[k], '\n') is None
}

/// A sequence without the newline character is free of newlines.
proof fn lemma_no_newline(s: Seq<char>)
    requires
        forall|j: int| 0 <= j < s.len() ==> s[j] != '\n',
    ensures
        find(s, '\n') is None,
{
    crate::chars::lemma_find_props(s, '\n');
}

/// None of the grammar's key strings holds a newline.
proof fn lemma_keys_clean()
    ensures
        find(key_modules(), '\n') is None,
        find(key_modules_empty(), '\n') is None,
        find(key_dash(), '\n') is None,
        find(key_name(), '\n') is None,
        find(key_module_version(), '\n') is None,
        find(key_files(), '\n') is None,
        find(key_files_empty(), '\n') is None,
        find(key_file_dash(), '\n') is None,
        find(key_path(), '\n') is None,
        find(key_search(), '\n') is None,
        find(key_replace(), '\n') is None,
        find(key_file_version(), '\n') is None,
{
    lemma_no_newline(key_modules());
    lemma_no_newline(key_modules_empty());
    lemma_no_newline(key_dash());
    lemma_no_newline(key_name());
    lemma_no_newline(key_module_version());
    lemma_no_newline(key_files());
    lemma_no_newline(key_files_empty());
    lemma_no_newline(key_file_dash());
    lemma_no_newline(key_path());
    lemma_no_newline(key_search());
    lemma_no_newline(key_replace());
    lemma_no_newline(key_file_version());
}

/// A version line of a well-formed scheme is free of newlines.
proof fn lemma_scheme_line_clean(key: Seq<char>, sch: SchemeView)
    requires
        find(key, '\n') is None,
        sch.wf(),
    ensures
        find(scheme_line(key, sch), '\n') is None,
{
    match sch {
        SchemeView::Semantic(v) => {
            crate::version::lemma_sv_format_clean(v);
            crate::version::lemma_find_none_concat(key, sv_format(v), '\n');
            crate::version::lemma_find_single('}', '\n');
            crate::version::lemma_find_none_concat(key + sv_format(v), seq!['}'], '\n');
            assert(scheme_line(key, sch) == key + sv_format(v) + seq!['}']);
        },
    }
}

/// The lines of a well-formed file entry are free of newlines.
proof fn lemma_file_lines_clean(f: FileView)
    requires
        f.wf(),
    ensures
        lines_clean(file_lines(f)),
{
    lemma_keys_clean();
    let k = file_lines(f);
    crate::version::lemma_find_none_concat(key_path(), f.path, '\n');
    lemma_scheme_line_clean(key_file_version(), f.version);
    match f.regex {
        Some(r) => {
            match r.search_pattern {
                Some(p) => {
                    crate::version::lemma_find_none_concat(key_search(), p, '\n');
                },
                None => {},
            }
            match r.replace_pattern {
                Some(p) => {
                    crate::version::lemma_find_none_concat(key_replace(), p, '\n');
                },
                None => {},
            }
        },
        None => {},
    }
    assert forall|j: int| 0 <= j < k.len() implies #[trigger] find(k[j], '\n') is None by {
    }
}

/// The lines of a well-formed module entry are free of newlines.
proof fn lemma_module_lines_clean(m: ModuleView)
    requires
        m.wf(),
    ensures
        lines_clean(module_lines(m)),
{
    lemma_keys_clean();
    let k = module_lines(m);
    match m.name {
        Some(n) => {
            crate::version::lemma_find_none_concat(key_name(), n, '\n');
        },
        None => {},
    }
    match m.current_version {
        Some(v) => {
            lemma_scheme_line_clean(key_module_version(), v);
        },
        None => {},
    }
    match m.files {
        Some(fs) => {
            if fs.len() > 0 {
                lemma_files_lines_clean(fs);
            }
        },
        None => {},
    }
    assert forall|j: int| 0 <= j < k.len() implies #[trigger] find(k[j], '\n') is None by {
        match m.files {
            Some(fs) => {
                if fs.len() > 0 {
                    let head = seq![key_dash()] + (match m.name {
                        Some(n) => seq![key_name() + n],
                        None => Seq::<Seq<char>>::empty(),
                    }) + (match m.current_version {
                        Some(v) => seq![scheme_line(key_module_version(), v)],
                        None => Seq::<Seq<char>>::empty(),
                    }) + seq![key_files()];
                    if j >= head.len() {
                        assert(k[j] == files_lines(fs)[j - head.len()]);
                    }
                }
            },
            None => {},
        }
    }
}

/// The lines of well-formed file entries are free of newlines.
proof fn lemma_files_lines_clean(fs: Seq<FileView>)
    requires
        forall|i: int| 0 <= i < fs.len() ==> #[trigger] fs[i].wf(),
    ensures
        lines_clean(files_lines(fs)),
    decreases fs.len(),
{
    if fs.len() > 0 {
        lemma_file_lines_clean(fs[0]);
        lemma_files_lines_clean(fs.drop_first());
        let k0 = file_lines(fs[0]);
        assert forall|j: int| 0 <= j < files_lines(fs).len() implies #[trigger] find(
            files_lines(fs)[j],
            '\n',
        ) is None by {
            if j < k0.len() {
                assert(files_lines(fs)[j] == k0[j]);
            } else {
                assert(files_lines(fs)[j] == files_lines(fs.drop_first())[j - k0.len()]);
            }
        }
    }
}

/// The lines of well-formed module entries are free of newlines.
proof fn lemma_modules_lines_clean(ms: Seq<ModuleView>)
    requires
        forall|i: int| 0 <= i < ms.len() ==> #[trigger] ms[i].wf(),
    ensures
        lines_clean(modules_lines(ms)),
    decreases ms.len(),
{
    if ms.len() > 0 {
        lemma_module_lines_clean(ms[0]);
        lemma_modules_lines_clean(ms.drop_first());
        let k0 = module_lines(ms[0]);
        assert forall|j: int| 0 <= j < modules_lines(ms).len() implies #[trigger] find(
            modules_lines(ms)[j],
            '\n',
        ) is None by {
            if j < k0.len() {
                assert(modules_lines(ms)[j] == k0[j]);
            } else {
                assert(modules_lines(ms)[j] == modules_lines(ms.drop_first())[j - k0.len()]);
            }
        }
    }
}

/// Splitting a joined list of newline-free lines gives the list back.
proof fn lemma_split_join(ls: Seq<Seq<char>>)
    requires
        ls.len() > 0,
        lines_clean(ls),
    ensures
        split_lines(join_lines(ls)) == ls,
    decreases ls.len(),
{
    if ls.len() == 1 {
        assert(find(ls[0], '\n') is None);
        assert(split_lines(join_lines(ls)) =~= ls);
    } else {
        let rest = ls.drop_first();
        let s = join_lines(ls);
        assert(s == ls[0] + seq!['\n'] + join_lines(rest));
        assert(find(ls[0], '\n') is None);
        assert((seq!['\n'] + join_lines(rest))[0] == '\n');
        assert(find(seq!['\n'] + join_lines(rest), '\n') == Some(0int));
        lemma_find_append(ls[0], seq!['\n'] + join_lines(rest), '\n');
        assert(ls[0] + seq!['\n'] + join_lines(rest) =~= ls[0] + (seq!['\n'] + join_lines(rest)));
        assert(find(s, '\n') == Some(ls[0].len() as int));
        assert(s.take(ls[0].len() as int) =~= ls[0]);
        assert(s.skip(ls[0].len() as int + 1) =~= join_lines(rest));
        assert(lines_clean(rest)) by {
            assert(forall|k: int| 0 <= k < rest.len() ==> rest[k] == ls[k + 1]);
        }
        lemma_split_join(rest);
        assert(split_lines(s) =~= seq![ls[0]] + split_lines(join_lines(rest)));
        assert(seq![ls[0]] + rest =~= ls);
    }
}


/// Stripping a key from the key followed by a value yields the value.
proof fn lemma_strip_concat(key: Seq<char>, v: Seq<char>)
    ensures
        strip_prefix(key + v, key) == Some(v),
{
    assert((key + v).take(key.len() as int) =~= key);
    assert((key + v).skip(key.len() as int) =~= v);
}

/// Reading back a version line of a well-formed scheme.
proof fn lemma_scheme_line_rt(key: Seq<char>, sch: SchemeView)
    requires
        sch.wf(),
    ensures
        parse_scheme_line(scheme_line(key, sch), key) == Some(sch),
{
    match sch {
        SchemeView::Semantic(v) => {
            let body = sv_format(v) + seq!['}'];
            assert(scheme_line(key, sch) =~= key + body);
            lemma_strip_concat(key, body);
            assert(body.last() == '}');
            assert(body.drop_last() =~= sv_format(v));
            crate::version::lemma_format_then_parse(v);
        },
    }
}

/// Reading back one well-formed file entry laid out in the lines.
#[verifier::rlimit(100)]
#[verifier::spinoff_prover]
proof fn lemma_read_file_block(ls: Seq<Seq<char>>, i: int, f: FileView)
    requires
        f.wf(),
        0 <= i,
        i + file_lines(f).len() <= ls.len(),
        ls.subrange(i, i + file_lines(f).len() as int) == file_lines(f),
    ensures
        parse_file_at(ls, i) == Some((f, i + file_lines(f).len() as int)),
{
    let k = file_lines(f);
    assert forall|j: int| 0 <= j < k.len() implies ls[i + j] == #[trigger] k[j] by {
        assert(ls.subrange(i, i + k.len() as int)[j] == ls[i + j]);
    }
    assert(k[0] == key_file_dash());
    assert(k[1] == key_path() + f.path);
    assert(ls[i + 1] == k[1]);
    lemma_strip_concat(key_path(), f.path);
    let vline = scheme_line(key_file_version(), f.version);
    lemma_scheme_line_rt(key_file_version(), f.version);
    match f.version {
        SchemeView::Semantic(v) => {
            assert(vline == key_file_version() + (sv_format(v) + seq!['}']));
            assert(vline.len() >= key_file_version().len());
            assert(vline.take(key_search().len() as int)[4] == vline[4]);
            assert(vline[4] == key_file_version()[4]);
            assert(strip_prefix(vline, key_search()) is None);
            assert(vline.take(key_replace().len() as int)[4] == vline[4]);
            assert(strip_prefix(vline, key_replace()) is None);
        },
    }
    match f.regex {
        Some(r) => {
            match (r.search_pattern, r.replace_pattern) {
                (Some(p), Some(q)) => {
                    assert(k.len() == 5);
                    assert(k[2] == key_search() + p);
                    assert(k[3] == key_replace() + q);
                    assert(k[4] == vline);
                    assert(ls[i + 2] == key_search() + p);
                    assert(ls[i + 3] == key_replace() + q);
                    assert(ls[i + 4] == vline);
                    lemma_strip_concat(key_search(), p);
                    lemma_strip_concat(key_replace(), q);
                },
                (Some(p), None) => {
                    assert(k.len() == 4);
                    assert(k[2] == key_search() + p);
                    assert(k[3] == vline);
                    assert(ls[i + 2] == key_search() + p);
                    assert(ls[i + 3] == vline);
                    lemma_strip_concat(key_search(), p);
                },
                (None, Some(q)) => {
                    assert(k.len() == 4);
                    assert(k[2] == key_replace() + q);
                    assert(k[3] == vline);
                    assert(ls[i + 2] == key_replace() + q);
                    assert(ls[i + 3] == vline);
                    assert((key_replace() + q).take(key_search().len() as int)[4] == (
                    key_replace() + q)[4]);
                    assert(strip_prefix(key_replace() + q, key_search()) is None);
                    lemma_strip_concat(key_replace(), q);
                },
                (None, None) => {
                    assert(false);
                },
            }
        },
        None => {
            assert(k.len() == 3);
            assert(k[2] == vline);
            assert(ls[i + 2] == vline);
        },
    }
}

/// Reading back well-formed file entries laid out in the lines, up to
/// a line that opens no further entry.
proof fn lemma_read_files_block(ls: Seq<Seq<char>>, i: int, fs: Seq<FileView>)
    requires
        forall|j: int| 0 <= j < fs.len() ==> #[trigger] fs[j].wf(),
        0 <= i,
        i + files_lines(fs).len() <= ls.len(),
        ls.subrange(i, i + files_lines(fs).len() as int) == files_lines(fs),
        i + files_lines(fs).len() == ls.len() || ls[i + files_lines(fs).len() as int]
            == key_dash(),
    ensures
        parse_files_at(ls, i) == Some((fs, i + files_lines(fs).len() as int)),
    decreases fs.len(),
{
    let e = i + files_lines(fs).len() as int;
    if fs.len() == 0 {
        if e < ls.len() {
            assert(ls[e] == key_dash());
            assert(key_dash().len() != key_file_dash().len());
            assert(ls[i] != key_file_dash());
        }
    } else {
        let k0 = file_lines(fs[0]);
        let krest = files_lines(fs.drop_first());
        assert(files_lines(fs) == k0 + krest);
        assert(k0.len() >= 3);
        assert forall|j: int| 0 <= j < files_lines(fs).len() implies ls[i + j] == #[trigger]
            files_lines(fs)[j] by {
            assert(ls.subrange(i, i + files_lines(fs).len() as int)[j] == ls[i + j]);
        }
        assert(files_lines(fs)[0] == k0[0]);
        assert(ls[i] == k0[0]);
        assert(k0[0] == key_file_dash());
        assert(ls.subrange(i, i + k0.len() as int) =~= k0);
        lemma_read_file_block(ls, i, fs[0]);
        let j = i + k0.len() as int;
        assert forall|m: int| 0 <= m < krest.len() implies ls.subrange(
            j,
            j + krest.len() as int,
        )[m] == krest[m] by {
            assert(files_lines(fs)[k0.len() + m] == krest[m]);
            assert(ls[i + (k0.len() + m)] == files_lines(fs)[k0.len() + m]);
        }
        assert(ls.subrange(j, j + krest.len() as int) =~= krest);
        assert(forall|m: int| 0 <= m < fs.drop_first().len() ==> #[trigger] fs.drop_first()[m]
            == fs[m + 1]);
        lemma_read_files_block(ls, j, fs.drop_first());
        assert(seq![fs[0]] + fs.drop_first() =~= fs);
    }
}


/// Reading back the file-list part of a well-formed module entry.
proof fn lemma_read_module_files_block(
    ls: Seq<Seq<char>>,
    i: int,
    name: Option<Seq<char>>,
    version: Option<SchemeView>,
    j2: int,
    files: Option<Seq<FileView>>,
    e: int,
)
    requires
        0 <= i < j2 <= ls.len(),
        match files {
            Some(fs) => forall|x: int| 0 <= x < fs.len() ==> #[trigger] fs[x].wf(),
            None => true,
        },
        e == j2 + (match files {
            Some(fs) => if fs.len() == 0 {
                1int
            } else {
                1int + files_lines(fs).len()
            },
            None => 0int,
        }),
        e <= ls.len(),
        match files {
            Some(fs) => if fs.len() == 0 {
                ls[j2] == key_files_empty()
            } else {
                ls[j2] == key_files() && ls.subrange(j2 + 1, e) == files_lines(fs)
            },
            None => true,
        },
        e == ls.len() || ls[e] == key_dash(),
    ensures
        parse_module_files(ls, i, name, version, j2) == Some(
            (ModuleView { current_version: version, files: files, name: name }, e),
        ),
{
    match files {
        Some(fs) => {
            if fs.len() == 0 {
                assert(fs =~= Seq::<FileView>::empty());
                assert(key_files_empty().len() != key_files().len());
            } else {
                assert(ls[j2] == key_files());
                assert(key_files().len() != key_files_empty().len());
                assert(ls[j2] != key_files_empty());
                lemma_read_files_block(ls, j2 + 1, fs);
            }
        },
        None => {
            if j2 < ls.len() {
                assert(ls[j2] == key_dash());
                assert(key_dash().len() != key_files_empty().len());
                assert(key_dash().len() != key_files().len());
            }
        },
    }
}

/// Reading back one well-formed module entry laid out in the lines.
#[verifier::rlimit(100)]
#[verifier::spinoff_prover]
proof fn lemma_read_module_block(ls: Seq<Seq<char>>, i: int, m: ModuleView)
    requires
        m.wf(),
        0 <= i,
        i + module_lines(m).len() <= ls.len(),
        ls.subrange(i, i + module_lines(m).len() as int) == module_lines(m),
        i + module_lines(m).len() == ls.len() || ls[i + module_lines(m).len() as int]
            == key_dash(),
    ensures
        parse_module_at(ls, i) == Some((m, i + module_lines(m).len() as int)),
{
    let k = module_lines(m);
    let e = i + k.len() as int;
    assert forall|j: int| 0 <= j < k.len() implies ls[i + j] == #[trigger] k[j] by {
        assert(ls.subrange(i, i + k.len() as int)[j] == ls[i + j]);
    }
    assert(k[0] == key_dash());
    let name_len: int = match m.name {
        Some(_) => 1,
        None => 0,
    };
    let cv_len: int = match m.current_version {
        Some(_) => 1,
        None => 0,
    };
    let files_len: int = match m.files {
        Some(fs) => if fs.len() == 0 {
            1int
        } else {
            1int + files_lines(fs).len()
        },
        None => 0int,
    };
    assert(k.len() == 1 + name_len + cv_len + files_len);
    let j1 = i + 1 + name_len;
    let j2 = j1 + cv_len;
    // The name line, when present, and what stands at i + 1 otherwise.
    match m.name {
        Some(nm) => {
            assert(k[1] == key_name() + nm);
            assert(ls[i + 1] == key_name() + nm);
            lemma_strip_concat(key_name(), nm);
        },
        None => {
            if i + 1 < ls.len() {
                let line = ls[i + 1];
                if i + 1 < e {
                    match m.current_version {
                        Some(v) => {
                            assert(k[1] == scheme_line(key_module_version(), v));
                            match v {
                                SchemeView::Semantic(sv) => {
                                    assert(line[2] == key_module_version()[2]);
                                    assert(line.len() >= key_name().len());
                                    assert(line.take(key_name().len() as int)[2] == line[2]);
                                    assert(strip_prefix(line, key_name()) is None);
                                },
                            }
                        },
                        None => {
                            match m.files {
                                Some(fs) => {
                                    if fs.len() == 0 {
                                        assert(k[1] == key_files_empty());
                                        assert(line == key_files_empty());
                                        assert(line.take(key_name().len() as int)[2] == line[2]);
                                        assert(strip_prefix(line, key_name()) is None);
                                    } else {
                                        assert(k[1] == key_files());
                                        assert(line == key_files());
                                        assert(line.len() == key_name().len());
                                        assert(line.take(key_name().len() as int)[2] == line[2]);
                                        assert(strip_prefix(line, key_name()) is None);
                                    }
                                },
                                None => {
                                    assert(false);
                                },
                            }
                        },
                    }
                } else {
                    assert(line == key_dash());
                    assert(line.len() < key_name().len());
                    assert(strip_prefix(line, key_name()) is None);
                }
            }
        },
    }
    // The version line, when present, and what stands at j1 otherwise.
    match m.current_version {
        Some(v) => {
            assert(k[1 + name_len] == scheme_line(key_module_version(), v));
            assert(ls[j1] == scheme_line(key_module_version(), v));
            match v {
                SchemeView::Semantic(sv) => {
                    assert(scheme_line(key_module_version(), v) =~= key_module_version() + (
                    sv_format(sv) + seq!['}']));
                    lemma_strip_concat(key_module_version(), sv_format(sv) + seq!['}']);
                },
            }
            lemma_scheme_line_rt(key_module_version(), v);
        },
        None => {
            if j1 < ls.len() {
                let line = ls[j1];
                if j1 < e {
                    match m.files {
                        Some(fs) => {
                            if fs.len() == 0 {
                                assert(k[1 + name_len] == key_files_empty());
                                assert(line == key_files_empty());
                            } else {
                                assert(k[1 + name_len] == key_files());
                                assert(line == key_files());
                            }
                            assert(line.len() < key_module_version().len());
                            assert(strip_prefix(line, key_module_version()) is None);
                        },
                        None => {
                            assert(false);
                        },
                    }
                } else {
                    assert(line == key_dash());
                    assert(line.len() < key_module_version().len());
                    assert(strip_prefix(line, key_module_version()) is None);
                }
            }
        },
    }
    // The file-list part.
    match m.files {
        Some(fs) => {
            if fs.len() == 0 {
                assert(k[1 + name_len + cv_len] == key_files_empty());
                assert(k[j2 - i] == key_files_empty());
                assert(ls[j2] == key_files_empty());
            } else {
                assert(k[1 + name_len + cv_len] == key_files());
                assert(k[j2 - i] == key_files());
                assert(ls[j2] == key_files());
                assert forall|x: int| 0 <= x < files_lines(fs).len() implies ls.subrange(
                    j2 + 1,
                    e,
                )[x] == files_lines(fs)[x] by {
                    assert(k[(j2 - i) + 1 + x] == files_lines(fs)[x]);
                    assert(ls[i + ((j2 - i) + 1 + x)] == k[(j2 - i) + 1 + x]);
                }
                assert(ls.subrange(j2 + 1, e) =~= files_lines(fs));
            }
        },
        None => {},
    }
    lemma_read_module_files_block(ls, i, m.name, m.current_version, j2, m.files, e);
    // Tie the specification parser's intermediate values to the layout.
    match m.name {
        Some(nm) => {
            assert(i + 1 < ls.len());
            assert(strip_prefix(ls[i + 1], key_name()) == Some(nm));
        },
        None => {
            assert(!(i + 1 < ls.len() && strip_prefix(ls[i + 1], key_name()) is Some));
        },
    }
    match m.current_version {
        Some(v) => {
            assert(j1 < ls.len());
            assert(strip_prefix(ls[j1], key_module_version()) is Some);
            assert(parse_scheme_line(ls[j1], key_module_version()) == Some(v));
        },
        None => {
            assert(!(j1 < ls.len() && strip_prefix(ls[j1], key_module_version()) is Some));
        },
    }
    assert(ModuleView { current_version: m.current_version, files: m.files, name: m.name } == m);
    let spec_pair = if i + 1 < ls.len() && strip_prefix(ls[i + 1], key_name()) is Some {
        (strip_prefix(ls[i + 1], key_name()), i + 2)
    } else {
        (None::<Seq<char>>, i + 1)
    };
    assert(spec_pair == (m.name, j1));
    assert(parse_module_at(ls, i) == parse_module_files(ls, i, m.name, m.current_version, j2));
    assert(parse_module_files(ls, i, m.name, m.current_version, j2) == Some(
        (ModuleView { current_version: m.current_version, files: m.files, name: m.name }, e),
    ));
    assert(parse_module_at(ls, i) == Some((m, e)));
    assert(parse_module_at(ls, i) == Some((m, i + module_lines(m).len() as int)));
}


/// Reading back well-formed module entries that run to the end of the
/// document.
#[verifier::rlimit(100)]
#[verifier::spinoff_prover]
proof fn lemma_read_modules_block(ls: Seq<Seq<char>>, i: int, ms: Seq<ModuleView>)
    requires
        forall|j: int| 0 <= j < ms.len() ==> #[trigger] ms[j].wf(),
        0 <= i,
        i + modules_lines(ms).len() == ls.len(),
        ls.subrange(i, ls.len() as int) == modules_lines(ms),
    ensures
        parse_modules_at(ls, i) == Some((ms, ls.len() as int)),
    decreases ms.len(),
{
    if ms.len() == 0 {
        assert(ms =~= Seq::<ModuleView>::empty());
        assert(i == ls.len());
    } else {
        let k0 = module_lines(ms[0]);
        let krest = modules_lines(ms.drop_first());
        assert(modules_lines(ms) == k0 + krest);
        assert(k0.len() >= 1);
        assert forall|j: int| 0 <= j < modules_lines(ms).len() implies ls[i + j] == #[trigger]
            modules_lines(ms)[j] by {
            assert(ls.subrange(i, ls.len() as int)[j] == ls[i + j]);
        }
        assert(modules_lines(ms)[0] == k0[0]);
        assert(ls[i] == k0[0]);
        assert(k0[0] == key_dash());
        let j = i + k0.len() as int;
        assert(ls.subrange(i, i + k0.len() as int) =~= k0);
        if j < ls.len() {
            assert(ms.drop_first().len() > 0);
            let m1 = ms.drop_first()[0];
            assert(krest == module_lines(m1) + modules_lines(ms.drop_first().drop_first()));
            assert(module_lines(m1).len() >= 1);
            assert(krest[0] == module_lines(m1)[0]);
            assert(module_lines(m1)[0] == key_dash());
            assert(modules_lines(ms)[k0.len() as int] == krest[0]);
            assert(ls[i + k0.len() as int] == modules_lines(ms)[k0.len() as int]);
            assert(ls[j] == key_dash());
        }
        lemma_read_module_block(ls, i, ms[0]);
        assert forall|x: int| 0 <= x < krest.len() implies ls.subrange(j, ls.len() as int)[x]
            == krest[x] by {
            assert(modules_lines(ms)[k0.len() + x] == krest[x]);
            assert(ls[i + (k0.len() + x)] == modules_lines(ms)[k0.len() + x]);
        }
        assert(ls.subrange(j, ls.len() as int) =~= krest);
        assert(forall|x: int| 0 <= x < ms.drop_first().len() ==> #[trigger] ms.drop_first()[x]
            == ms[x + 1]);
        lemma_read_modules_block(ls, j, ms.drop_first());
        assert(seq![ms[0]] + ms.drop_first() =~= ms);
    }
}

/// Law: reading the rendering of a well-formed store gives back
/// exactly that store. Saving and then loading therefore loses
/// nothing, for every store the textual form can hold.
#[verifier::rlimit(100)]
#[verifier::spinoff_prover]
pub proof fn lemma_save_then_load(v: StoreView)
    requires
        v.wf(),
    ensures
        parse_text(emit_text(v)) == Some(v),
{
    match v.modules {
        None => {
            assert(store_lines(v) =~= Seq::<Seq<char>>::empty());
            assert(emit_text(v) =~= Seq::<char>::empty());
            assert(find(Seq::<char>::empty(), '\n') is None);
            assert(split_lines(emit_text(v)) =~= seq![Seq::<char>::empty()]);
        },
        Some(ms) => {
            if ms.len() == 0 {
                let ls = seq![key_modules_empty()];
                assert(store_lines(v) == ls);
                lemma_keys_clean();
                lemma_split_join(ls);
                assert(key_modules_empty().len() != 0);
                assert(parse_store(ls) == Some(
                    StoreView { modules: Some(Seq::<ModuleView>::empty()) },
                ));
                assert(ms =~= Seq::<ModuleView>::empty());
            } else {
                let ls = seq![key_modules()] + modules_lines(ms);
                assert(store_lines(v) == ls);
                lemma_keys_clean();
                lemma_modules_lines_clean(ms);
                assert(lines_clean(ls)) by {
                    assert forall|x: int| 0 <= x < ls.len() implies #[trigger] find(
                        ls[x],
                        '\n',
                    ) is None by {
                        if x > 0 {
                            assert(ls[x] == modules_lines(ms)[x - 1]);
                        }
                    }
                }
                assert(modules_lines(ms).len() >= 1) by {
                    assert(modules_lines(ms) == module_lines(ms[0]) + modules_lines(
                        ms.drop_first(),
                    ));
                    assert(module_lines(ms[0]).len() >= 1);
                }
                lemma_split_join(ls);
                assert(ls.len() >= 2);
                assert(ls[0] == key_modules());
                assert(key_modules() != key_modules_empty());
                assert(ls.subrange(1, ls.len() as int) =~= modules_lines(ms));
                lemma_read_modules_block(ls, 1, ms);
                assert(parse_store(ls) == Some(StoreView { modules: Some(ms) }));
            }
        },
    }
}


/// Splitting a document yields lines free of newlines.
proof fn lemma_split_lines_clean(s: Seq<char>)
    ensures
        lines_clean(split_lines(s)),
    decreases s.len(),
{
    crate::chars::lemma_find_props(s, '\n');
    match find(s, '\n') {
        None => {
            assert(split_lines(s) == seq![s]);
        },
        Some(i) => {
            let k = if 0 <= i < s.len() {
                i
            } else {
                0int
            };
            assert(k == i);
            assert(find(s.take(i), '\n') is None) by {
                assert forall|j: int| 0 <= j < s.take(i).len() implies s.take(i)[j] != '\n' by {
                    assert(s.take(i)[j] == s[j]);
                }
                crate::chars::lemma_find_props(s.take(i), '\n');
            }
            lemma_split_lines_clean(s.skip(i + 1));
            let rest = split_lines(s.skip(i + 1));
            assert(split_lines(s) == seq![s.take(i)] + rest);
            assert forall|x: int| 0 <= x < split_lines(s).len() implies #[trigger] find(
                split_lines(s)[x],
                '\n',
            ) is None by {
                if x > 0 {
                    assert(split_lines(s)[x] == rest[x - 1]);
                }
            }
        },
    }
}

/// A version read from a newline-free line is well formed.
proof fn lemma_parse_scheme_line_wf(line: Seq<char>, key: Seq<char>)
    requires
        find(line, '\n') is None,
    ensures
        parse_scheme_line(line, key) matches Some(sch) ==> sch.wf(),
{
    match strip_prefix(line, key) {
        Some(rest) => {
            if rest.len() >= 1 && rest.last() == '}' {
                assert(rest == line.subrange(key.len() as int, line.len() as int));
                crate::version::lemma_subrange_clean(
                    line,
                    key.len() as int,
                    line.len() as int,
                    '\n',
                );
                assert(rest.drop_last() == rest.subrange(0, rest.len() - 1));
                crate::version::lemma_subrange_clean(rest, 0, rest.len() - 1, '\n');
                crate::version::lemma_sv_parse_wf(rest.drop_last());
            }
        },
        None => {},
    }
}

/// A stripped value read from a newline-free line is newline free.
proof fn lemma_strip_prefix_clean(line: Seq<char>, key: Seq<char>)
    requires
        find(line, '\n') is None,
    ensures
        strip_prefix(line, key) matches Some(v) ==> find(v, '\n') is None,
{
    match strip_prefix(line, key) {
        Some(v) => {
            assert(v == line.subrange(key.len() as int, line.len() as int));
            crate::version::lemma_subrange_clean(line, key.len() as int, line.len() as int, '\n');
        },
        None => {},
    }
}

/// A file entry read from newline-free lines is well formed.
proof fn lemma_parse_file_at_wf(ls: Seq<Seq<char>>, i: int)
    requires
        lines_clean(ls),
        0 <= i,
    ensures
        parse_file_at(ls, i) matches Some(p) ==> p.0.wf(),
{
    if i + 1 < ls.len() {
        lemma_strip_prefix_clean(ls[i + 1], key_path());
        if i + 2 < ls.len() {
            lemma_strip_prefix_clean(ls[i + 2], key_search());
        }
        let (search, j2) = if i + 2 < ls.len() && strip_prefix(ls[i + 2], key_search()) is Some {
            (strip_prefix(ls[i + 2], key_search()), i + 3)
        } else {
            (None::<Seq<char>>, i + 2)
        };
        if j2 < ls.len() {
            lemma_strip_prefix_clean(ls[j2], key_replace());
        }
        let (replace, j3) = if j2 < ls.len() && strip_prefix(ls[j2], key_replace()) is Some {
            (strip_prefix(ls[j2], key_replace()), j2 + 1)
        } else {
            (None::<Seq<char>>, j2)
        };
        if j3 < ls.len() {
            lemma_parse_scheme_line_wf(ls[j3], key_file_version());
        }
    }
}

/// File entries read from newline-free lines are well formed.
proof fn lemma_parse_files_at_wf(ls: Seq<Seq<char>>, i: int)
    requires
        lines_clean(ls),
    ensures
        parse_files_at(ls, i) matches Some(p) ==> forall|x: int|
            0 <= x < p.0.len() ==> (#[trigger] p.0[x]).wf(),
    decreases ls.len() - i,
{
    if !(i < 0 || i >= ls.len() || ls[i] != key_file_dash()) {
        match parse_file_at(ls, i) {
            None => {},
            Some(p) => {
                lemma_parse_file_at_wf(ls, i);
                let jj = if i < p.1 <= ls.len() {
                    p.1
                } else {
                    i + 1
                };
                lemma_parse_files_at_wf(ls, jj);
                match parse_files_at(ls, jj) {
                    None => {},
                    Some(rest) => {
                        assert forall|x: int| 0 <= x < (seq![p.0] + rest.0).len() implies (
                        #[trigger] (seq![p.0] + rest.0)[x]).wf() by {
                            if x > 0 {
                                assert((seq![p.0] + rest.0)[x] == rest.0[x - 1]);
                            }
                        }
                    },
                }
            },
        }
    }
}

/// A module entry read from newline-free lines is well formed.
proof fn lemma_parse_module_at_wf(ls: Seq<Seq<char>>, i: int)
    requires
        lines_clean(ls),
        0 <= i,
    ensures
        parse_module_at(ls, i) matches Some(p) ==> p.0.wf(),
{
    if i + 1 < ls.len() {
        lemma_strip_prefix_clean(ls[i + 1], key_name());
    }
    let (name, j1) = if i + 1 < ls.len() && strip_prefix(ls[i + 1], key_name()) is Some {
        (strip_prefix(ls[i + 1], key_name()), i + 2)
    } else {
        (None::<Seq<char>>, i + 1)
    };
    if j1 < ls.len() {
        lemma_parse_scheme_line_wf(ls[j1], key_module_version());
    }
    if j1 < ls.len() && strip_prefix(ls[j1], key_module_version()) is Some {
        match parse_scheme_line(ls[j1], key_module_version()) {
            None => {},
            Some(v) => {
                lemma_parse_module_files_wf(ls, i, name, Some(v), j1 + 1);
            },
        }
    } else {
        lemma_parse_module_files_wf(ls, i, name, None, j1);
    }
}

/// The file-list part of a read module entry is well formed.
proof fn lemma_parse_module_files_wf(
    ls: Seq<Seq<char>>,
    i: int,
    name: Option<Seq<char>>,
    version: Option<SchemeView>,
    j2: int,
)
    requires
        lines_clean(ls),
        match name {
            Some(n) => find(n, '\n') is None,
            None => true,
        },
        match version {
            Some(v) => v.wf(),
            None => true,
        },
    ensures
        parse_module_files(ls, i, name, version, j2) matches Some(p) ==> p.0.wf(),
{
    if j2 < ls.len() && ls[j2] == key_files_empty() {
    } else if j2 < ls.len() && ls[j2] == key_files() {
        lemma_parse_files_at_wf(ls, j2 + 1);
    }
}

/// Module entries read from newline-free lines are well formed.
proof fn lemma_parse_modules_at_wf(ls: Seq<Seq<char>>, i: int)
    requires
        lines_clean(ls),
    ensures
        parse_modules_at(ls, i) matches Some(p) ==> forall|x: int|
            0 <= x < p.0.len() ==> (#[trigger] p.0[x]).wf(),
    decreases ls.len() - i,
{
    if !(i < 0 || i >= ls.len() || ls[i] != key_dash()) {
        match parse_module_at(ls, i) {
            None => {},
            Some(p) => {
                lemma_parse_module_at_wf(ls, i);
                let jj = if i < p.1 <= ls.len() {
                    p.1
                } else {
                    i + 1
                };
                lemma_parse_modules_at_wf(ls, jj);
                match parse_modules_at(ls, jj) {
                    None => {},
                    Some(rest) => {
                        assert forall|x: int| 0 <= x < (seq![p.0] + rest.0).len() implies (
                        #[trigger] (seq![p.0] + rest.0)[x]).wf() by {
                            if x > 0 {
                                assert((seq![p.0] + rest.0)[x] == rest.0[x - 1]);
                            }
                        }
                    },
                }
            },
        }
    }
}

/// Law: a loaded store is always well formed, so it can be saved and
/// loaded again without loss.
pub proof fn lemma_loaded_store_wf(t: Seq<char>)
    ensures
        parse_text(t) matches Some(v) ==> v.wf(),
{
    lemma_split_lines_clean(t);
    let ls = split_lines(t);
    if !(ls.len() == 0 || (ls.len() == 1 && ls[0].len() == 0)) && !(ls.len() == 1 && ls[0]
        == key_modules_empty()) && ls.len() > 0 && ls[0] == key_modules() {
        lemma_parse_modules_at_wf(ls, 1);
    }
}


/// Law: any store that loading produced can be saved and loaded again
/// unchanged.
pub proof fn lemma_reload_after_save(t: Seq<char>)
    ensures
        parse_text(t) matches Some(v) ==> parse_text(emit_text(v)) == Some(v),
{
    lemma_loaded_store_wf(t);
    match parse_text(t) {
        Some(v) => {
            lemma_save_then_load(v);
        },
        None => {},
    }
}

} // verus!

