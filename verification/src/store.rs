//! The configuration store: an ordered collection of tracked modules,
//! each owning tracked files, each tagged with a version and optional
//! search/replace patterns. An absent module list is a valid "nothing
//! configured" state, distinct from an empty list.

use crate::chars::find;
use crate::version::SemVerView;
use crate::version::SemanticVersion;
use vstd::prelude::*;

verus! {

/// View of an optional string as an optional character sequence.
pub open spec fn opt_str_view(o: Option<String>) -> Option<Seq<char>> {
    match o {
        Some(s) => Some(s@),
        None => None,
    }
}

/// Version schemes a tracked file can carry. The persisted text keeps
/// the scheme's tag, so that other schemes can be added later without
/// breaking stored configurations.
#[derive(Clone, Debug, PartialEq, Eq)]
pub enum VersionScheme {
    /// A semantic version.
    Semantic(SemanticVersion),
}

/// Model of a version scheme.
pub ghost enum SchemeView {
    Semantic(SemVerView),
}

impl SchemeView {
    /// The carried version renders to a single line that parses back
    /// to itself.
    pub open spec fn wf(self) -> bool {
        match self {
            SchemeView::Semantic(v) => v.wf() && v.line_clean(),
        }
    }
}

impl View for VersionScheme {
    type V = SchemeView;

    open spec fn view(&self) -> SchemeView {
        match self {
            VersionScheme::Semantic(v) => SchemeView::Semantic(v@),
        }
    }
}

impl DeepView for VersionScheme {
    type V = SchemeView;

    open spec fn deep_view(&self) -> SchemeView {
        self.view()
    }
}

/// How to locate and rewrite the version marker inside a tracked file.
#[derive(Clone, Debug, PartialEq, Eq)]
pub struct RegexPatterns {
    /// Replacement written over the matched version marker.
    pub replace_pattern: Option<String>,
    /// Pattern locating the version marker.
    pub search_pattern: Option<String>,
}

/// Model of a pattern pair.
pub ghost struct RegexView {
    pub replace_pattern: Option<Seq<char>>,
    pub search_pattern: Option<Seq<char>>,
}

impl RegexView {
    /// Both patterns absent: the default value, which the persisted
    /// text leaves out entirely.
    pub open spec fn is_trivial(self) -> bool {
        self.replace_pattern is None && self.search_pattern is None
    }

    /// A pair the persisted text can hold exactly: at least one
    /// pattern present, and neither spanning more than one line.
    pub open spec fn wf(self) -> bool {
        &&& !self.is_trivial()
        &&& match self.replace_pattern {
            Some(p) => find(p, '\n') is None,
            None => true,
        }
        &&& match self.search_pattern {
            Some(p) => find(p, '\n') is None,
            None => true,
        }
    }
}

impl View for RegexPatterns {
    type V = RegexView;

    open spec fn view(&self) -> RegexView {
        RegexView {
            replace_pattern: opt_str_view(self.replace_pattern),
            search_pattern: opt_str_view(self.search_pattern),
        }
    }
}

impl DeepView for RegexPatterns {
    type V = RegexView;

    open spec fn deep_view(&self) -> RegexView {
        self.view()
    }
}

/// A tracked file: where it lives, how to find its version marker,
/// and the version it currently carries.
#[derive(Clone, Debug, PartialEq, Eq)]
pub struct ModuleFile {
    /// Path of the tracked file.
    pub path: String,
    /// Optional search/replace patterns; left out of the persisted
    /// text when equal to the default pair.
    pub regex: Option<RegexPatterns>,
    /// The version currently recorded for this file.
    pub version: VersionScheme,
}

/// Model of a tracked file.
pub ghost struct FileView {
    pub path: Seq<char>,
    pub regex: Option<RegexView>,
    pub version: SchemeView,
}

impl FileView {
    /// A file entry the persisted text can hold exactly.
    pub open spec fn wf(self) -> bool {
        &&& find(self.path, '\n') is None
        &&& match self.regex {
            Some(r) => r.wf(),
            None => true,
        }
        &&& self.version.wf()
    }
}

impl View for ModuleFile {
    type V = FileView;

    open spec fn view(&self) -> FileView {
        FileView {
            path: self.path@,
            regex: match self.regex {
                Some(r) => Some(r@),
                None => None,
            },
            version: self.version@,
        }
    }
}

impl DeepView for ModuleFile {
    type V = FileView;

    open spec fn deep_view(&self) -> FileView {
        self.view()
    }
}

/// A tracked module: an optional name, an optional module-level
/// version kept from older configurations, and its tracked files.
#[derive(Clone, Debug, PartialEq, Eq)]
pub struct ModuleConfig {
    /// Module-level version preceding per-file versions; kept so that
    /// older configurations stay readable.
    pub current_version: Option<VersionScheme>,
    /// The files this module tracks; an absent list is distinct from
    /// an empty one.
    pub files: Option<Vec<ModuleFile>>,
    /// Name of the module.
    pub name: Option<String>,
}

/// Model of a tracked module.
pub ghost struct ModuleView {
    pub current_version: Option<SchemeView>,
    pub files: Option<Seq<FileView>>,
    pub name: Option<Seq<char>>,
}

impl ModuleView {
    /// A module entry the persisted text can hold exactly.
    pub open spec fn wf(self) -> bool {
        &&& match self.name {
            Some(n) => find(n, '\n') is None,
            None => true,
        }
        &&& match self.current_version {
            Some(v) => v.wf(),
            None => true,
        }
        &&& match self.files {
            Some(fs) => forall|i: int| 0 <= i < fs.len() ==> #[trigger] fs[i].wf(),
            None => true,
        }
    }
}

impl View for ModuleConfig {
    type V = ModuleView;

    open spec fn view(&self) -> ModuleView {
        ModuleView {
            current_version: match self.current_version {
                Some(v) => Some(v@),
                None => None,
            },
            files: match self.files {
                Some(fs) => Some(fs.deep_view()),
                None => None,
            },
            name: opt_str_view(self.name),
        }
    }
}

impl DeepView for ModuleConfig {
    type V = ModuleView;

    open spec fn deep_view(&self) -> ModuleView {
        self.view()
    }
}

/// The configuration store: the ordered modules the tool manages. An
/// absent module list means "nothing configured", and differs from an
/// empty list.
#[derive(Clone, Debug, PartialEq, Eq)]
pub struct BvConfig {
    /// The tracked modules, in order.
    pub modules: Option<Vec<ModuleConfig>>,
}

/// Model of the configuration store.
pub ghost struct StoreView {
    pub modules: Option<Seq<ModuleView>>,
}

impl StoreView {
    /// A store the persisted text can hold exactly.
    pub open spec fn wf(self) -> bool {
        match self.modules {
            Some(ms) => forall|i: int| 0 <= i < ms.len() ==> #[trigger] ms[i].wf(),
            None => true,
        }
    }

    /// The store `load` falls back to: nothing configured.
    pub open spec fn default_view() -> StoreView {
        StoreView { modules: None }
    }
}

impl View for BvConfig {
    type V = StoreView;

    open spec fn view(&self) -> StoreView {
        StoreView {
            modules: match self.modules {
                Some(ms) => Some(ms.deep_view()),
                None => None,
            },
        }
    }
}

impl DeepView for BvConfig {
    type V = StoreView;

    open spec fn deep_view(&self) -> StoreView {
        self.view()
    }
}

impl Default for BvConfig {
    /// The empty default store: no modules configured.
    fn default() -> (r: BvConfig)
        ensures
            r@ == StoreView::default_view(),
            r@.wf(),
    {
        BvConfig { modules: None }
    }
}

impl Default for RegexPatterns {
    /// The default pattern pair: both patterns absent.
    fn default() -> (r: RegexPatterns)
        ensures
            r@.is_trivial(),
    {
        RegexPatterns { replace_pattern: None, search_pattern: None }
    }
}

/// Whether the pair equals the default, i.e. holds no pattern at all;
/// such a pair is left out of the persisted text.
pub fn is_default_regex_patterns(data: &RegexPatterns) -> (r: bool)
    ensures
        r == data@.is_trivial(),
{
    data.search_pattern.is_none() && data.replace_pattern.is_none()
}

/// Version control systems the tool can drive for automatic commits
/// and tags.
#[derive(Clone, Copy, Debug, PartialEq, Eq)]
pub enum SupportedVCS {
    /// The git version control system.
    Git,
}

} // verus!
