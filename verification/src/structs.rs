//! The search configuration and its construction from command-line input.

use vstd::prelude::*;
use crate::names::{dot, fold_seq, slash};

verus! {

/// How results are presented. `Simple` drops the highlighting and the
/// partition headers; `SuperSimple` also leaves the results unsorted.
#[derive(PartialEq, Eq, Structural, Clone, Copy, Debug)]
pub enum Output {
    Normal,
    Simple,
    SuperSimple,
}

/// The kind of entry a search accepts: directories, files, or both.
#[derive(PartialEq, Eq, Structural, Clone, Copy, Debug)]
pub enum FileType {
    Dir,
    File,
    All,
}

impl FileType {
    /// Parses the type-filter argument: `d` selects directories, `f`
    /// files, an absent argument selects everything, and anything else is
    /// rejected.
    pub fn from_arg(s: &Option<Vec<u8>>) -> (r: Result<FileType, ()>)
        ensures
            match s {
                Some(t) => if t@ == seq![100u8] {
                    r matches Ok(f) && f is Dir
                } else if t@ == seq![102u8] {
                    r matches Ok(f) && f is File
                } else {
                    r is Err
                },
                None => r matches Ok(f) && f is All,
            },
    {
        match s {
            None => Ok(FileType::All),
            Some(t) => {
                if t.len() == 1 && t[0] == 100u8 {
                    proof {
                        assert(t@ =~= seq![100u8]);
                    }
                    Ok(FileType::Dir)
                } else if t.len() == 1 && t[0] == 102u8 {
                    proof {
                        assert(t@ =~= seq![102u8]);
                    }
                    Ok(FileType::File)
                } else {
                    proof {
                        if t@ == seq![100u8] {
                            assert(t@.len() == 1 && t@[0] == 100u8);
                        }
                        if t@ == seq![102u8] {
                            assert(t@.len() == 1 && t@[0] == 102u8);
                        }
                    }
                    Err(())
                }
            },
        }
    }
}

/// The resolved, immutable configuration a search runs under. It is
/// built once, before the walk starts, and only read afterwards.
#[derive(Clone)]
pub struct Search {
    /// Stop as soon as one match is recorded.
    pub first: bool,
    /// Record only exact matches; names that merely contain the query are skipped.
    pub exact: bool,
    /// Canonicalize all paths before comparing and reporting them.
    pub canonicalize: bool,
    /// Compare names byte-for-byte instead of folding ASCII case.
    pub case_sensitive: bool,
    /// Search only the configured root directories, not the current directory.
    pub limit: bool,
    /// Report directories that could not be read.
    pub verbose: bool,
    /// Traverse hidden directories and accept hidden entries as matches.
    pub hidden: bool,
    /// Offer a single-choice picker over the results afterwards.
    pub select: bool,
    /// Offer a multi-choice picker over the results afterwards.
    pub multiselect: bool,
    /// How the results are presented.
    pub output: Output,
    /// The name searched for.
    pub name: Vec<u8>,
    /// A folded name must start with this to be accepted.
    pub starts: Vec<u8>,
    /// A folded name must end with this to be accepted.
    pub ends: Vec<u8>,
    /// The kind of entry accepted.
    pub ftype: FileType,
    /// Entries to leave out: absolute ones match by full path, relative
    /// ones by base name.
    pub explicit_ignore: Vec<Vec<u8>>,
    /// The root directories to search.
    pub dirs: Vec<Vec<u8>>,
}

/// The output mode selected by the number of `simple` flags given.
pub open spec fn spec_output_of(level: u8) -> Output {
    if level == 0 {
        Output::Normal
    } else if level == 1 {
        Output::Simple
    } else {
        Output::SuperSimple
    }
}

impl Search {
    /// Builds a configuration from fully resolved values; the numeric
    /// output level collapses to its mode here.
    pub fn new(
        first: bool,
        exact: bool,
        canonicalize: bool,
        case_sensitive: bool,
        limit: bool,
        verbose: bool,
        hidden: bool,
        select: bool,
        multiselect: bool,
        output: u8,
        name: Vec<u8>,
        starts: Vec<u8>,
        ends: Vec<u8>,
        ftype: FileType,
        explicit_ignore: Vec<Vec<u8>>,
        search_in_dirs: Vec<Vec<u8>>,
    ) -> (r: Search)
        ensures
            r.first == first,
            r.exact == exact,
            r.canonicalize == canonicalize,
            r.case_sensitive == case_sensitive,
            r.limit == limit,
            r.verbose == verbose,
            r.hidden == hidden,
            r.select == select,
            r.multiselect == multiselect,
            r.output == spec_output_of(output),
            r.name == name,
            r.starts == starts,
            r.ends == ends,
            r.ftype == ftype,
            r.explicit_ignore == explicit_ignore,
            r.dirs == search_in_dirs,
    {
        let output = if output == 0 {
            Output::Normal
        } else if output == 1 {
            Output::Simple
        } else {
            Output::SuperSimple
        };
        Search {
            first,
            exact,
            canonicalize,
            case_sensitive,
            limit,
            verbose,
            hidden,
            select,
            multiselect,
            output,
            name,
            starts,
            ends,
            ftype,
            explicit_ignore,
            dirs: search_in_dirs,
        }
    }
}

/// The views of a sequence of byte vectors.
pub open spec fn views_of(vs: Seq<Vec<u8>>) -> Seq<Seq<u8>> {
    vs.map_values(|v: Vec<u8>| v@)
}

/// The bytes of an optional argument; absent means empty.
pub open spec fn opt_bytes(o: Option<Vec<u8>>) -> Seq<u8> {
    match o {
        Some(v) => v@,
        None => Seq::empty(),
    }
}

/// Whether a byte string holds an ASCII upper-case letter.
pub open spec fn has_ascii_upper(s: Seq<u8>) -> bool {
    exists|i: int| 0 <= i < s.len() && 65 <= #[trigger] s[i] <= 90
}

/// Whether the name argument denotes a directory rather than a query:
/// it is `.` or holds a path separator.
pub open spec fn spec_dirlike(n: Seq<u8>) -> bool {
    n == seq![dot()] || n.contains(slash())
}

/// An ignore entry as the walk will compare it: kept as given when paths
/// are canonicalized (the caller canonicalizes it afterwards) or when it
/// is absolute; otherwise anchored under `./`.
pub open spec fn spec_adjust_ignore(e: Seq<u8>, canonicalize: bool) -> Seq<u8> {
    if canonicalize {
        e
    } else if e.len() > 0 && e[0] == slash() {
        e
    } else {
        seq![dot(), slash()] + e
    }
}

/// The query name the command-line input resolves to: empty when no name
/// was given or the name turned out to denote a directory.
pub open spec fn spec_res_name(cli: Cli) -> Seq<u8> {
    match cli.name {
        Some(n) => if spec_dirlike(n@) {
            Seq::empty()
        } else {
            n@
        },
        None => Seq::empty(),
    }
}

/// The root directories the command-line input resolves to: a name that
/// denotes a directory is searched in front of the listed ones.
pub open spec fn spec_res_dirs(cli: Cli) -> Seq<Seq<u8>> {
    let d = views_of(cli.search_in_dirs@);
    match cli.name {
        Some(n) => if spec_dirlike(n@) {
            seq![n@] + d
        } else {
            d
        },
        None => d,
    }
}

/// Every entry of a list of ignore entries, adjusted.
pub open spec fn spec_adjusted_all(l: Seq<Seq<u8>>, canonicalize: bool) -> Seq<Seq<u8>> {
    Seq::new(l.len(), |j: int| spec_adjust_ignore(l[j], canonicalize))
}

/// The adjusted ignore entries the command-line input resolves to.
pub open spec fn spec_res_ignore(cli: Cli) -> Seq<Seq<u8>> {
    match cli.ignore_dirs {
        Some(v) => spec_adjusted_all(views_of(v@), cli.canonicalize),
        None => Seq::empty(),
    }
}

/// The command-line input, as parsed flags and arguments. Resolving it
/// into a `Search` is ordinary logic and happens in `run`; reading the
/// actual process arguments is the caller's business.
pub struct Cli {
    /// Stop when the first occurrence is found.
    pub first: bool,
    /// Accept exactly matching occurrences only.
    pub exact: bool,
    /// Canonicalize all paths.
    pub canonicalize: bool,
    /// Compare byte-for-byte; also activated by an upper-case query.
    pub case_sensitive: bool,
    /// Report unreadable directories.
    pub verbose: bool,
    /// How many times the simple-output flag was given.
    pub simple: u8,
    /// Traverse hidden directories.
    pub hidden: bool,
    /// Offer a single-choice picker over the results.
    pub select: bool,
    /// Offer a multi-choice picker over the results.
    pub multiselect: bool,
    /// Accept only names starting with this.
    pub starts_with: Option<Vec<u8>>,
    /// Accept only names ending with this.
    pub ends_with: Option<Vec<u8>>,
    /// The type filter argument, `d` or `f`.
    pub file_type: Option<Vec<u8>>,
    /// Directories to ignore.
    pub ignore_dirs: Option<Vec<Vec<u8>>>,
    /// The name to search for.
    pub name: Option<Vec<u8>>,
    /// Directories to search in; empty means the current directory.
    pub search_in_dirs: Vec<Vec<u8>>,
}

/// Whether a byte vector holds an ASCII upper-case letter.
fn find_ascii_upper(s: &Vec<u8>) -> (r: bool)
    ensures
        r == has_ascii_upper(s@),
{
    let mut i: usize = 0;
    while i < s.len()
        invariant
            i <= s@.len(),
            forall|j: int| 0 <= j < i ==> !(65 <= #[trigger] s@[j] <= 90),
        decreases s@.len() - i,
    {
        if 65 <= s[i] && s[i] <= 90 {
            return true;
        }
        i = i + 1;
    }
    false
}

/// Whether a byte vector holds a path separator.
fn contains_slash(s: &Vec<u8>) -> (r: bool)
    ensures
        r == s@.contains(slash()),
{
    let mut i: usize = 0;
    while i < s.len()
        invariant
            i <= s@.len(),
            forall|j: int| 0 <= j < i ==> s@[j] != slash(),
        decreases s@.len() - i,
    {
        if s[i] == 47u8 {
            return true;
        }
        i = i + 1;
    }
    false
}

impl Cli {
    /// Resolves the parsed command-line input into a search
    /// configuration.
    ///
    /// A name that is `.` or holds a separator is taken as a root
    /// directory instead of a query; an upper-case query switches the
    /// search to case-sensitive; prefix and suffix filters are folded
    /// when it is not; relative ignore entries are anchored under `./`
    /// unless paths are canonicalized, in which case the caller
    /// canonicalizes each ignore entry afterwards. An unrecognized type
    /// filter is returned as the error.
    pub fn run(self) -> (r: Result<Search, Vec<u8>>)
        ensures
            match r {
                Ok(s) => {
                    &&& (match self.file_type {
                        Some(t) => (t@ == seq![100u8] && s.ftype is Dir) || (t@ == seq![102u8]
                            && s.ftype is File),
                        None => s.ftype is All,
                    })
                    &&& s.first == self.first
                    &&& s.exact == self.exact
                    &&& s.canonicalize == self.canonicalize
                    &&& s.verbose == self.verbose
                    &&& s.hidden == self.hidden
                    &&& s.select == self.select
                    &&& s.multiselect == self.multiselect
                    &&& s.output == spec_output_of(self.simple)
                    &&& s.case_sensitive == (self.case_sensitive || has_ascii_upper(
                        spec_res_name(self),
                    ))
                    &&& s.name@ == spec_res_name(self)
                    &&& s.starts@ == fold_seq(opt_bytes(self.starts_with), s.case_sensitive)
                    &&& s.ends@ == fold_seq(opt_bytes(self.ends_with), s.case_sensitive)
                    &&& views_of(s.dirs@) == spec_res_dirs(self)
                    &&& s.limit == (spec_res_dirs(self).len() > 0)
                    &&& views_of(s.explicit_ignore@) == spec_res_ignore(self)
                },
                Err(t) => self.file_type matches Some(u) && t == u && u@ != seq![100u8] && u@
                    != seq![102u8],
            },
    {
        let ghost cli = self;
        let Cli {
            first,
            exact,
            canonicalize,
            case_sensitive,
            verbose,
            simple,
            hidden,
            select,
            multiselect,
            starts_with,
            ends_with,
            file_type,
            ignore_dirs,
            name,
            search_in_dirs,
        } = self;

        let ftype = match FileType::from_arg(&file_type) {
            Ok(f) => f,
            Err(()) => {
                return Err(file_type.unwrap());
            },
        };

        let mut dirs = search_in_dirs;
        let name: Vec<u8> = match name {
            Some(n) => {
                let dirlike = (n.len() == 1 && n[0] == 46u8) || contains_slash(&n);
                proof {
                    if n@.len() == 1 && n@[0] == dot() {
                        assert(n@ =~= seq![dot()]);
                    }
                    if n@ == seq![dot()] {
                        assert(n@.len() == 1 && n@[0] == dot());
                    }
                    assert(dirlike == spec_dirlike(n@));
                }
                if dirlike {
                    dirs.insert(0, n);
                    Vec::new()
                } else {
                    n
                }
            },
            None => Vec::new(),
        };
        proof {
            assert(name@ == spec_res_name(cli));
            assert(views_of(dirs@) =~~= spec_res_dirs(cli));
        }

        let case_sensitive = case_sensitive || find_ascii_upper(&name);

        let mut starts = match starts_with {
            Some(v) => v,
            None => Vec::new(),
        };
        let mut ends = match ends_with {
            Some(v) => v,
            None => Vec::new(),
        };
        if !case_sensitive {
            starts = crate::names::to_ascii_lower(&starts);
            ends = crate::names::to_ascii_lower(&ends);
        }
        proof {
            assert(starts@ == fold_seq(opt_bytes(cli.starts_with), case_sensitive));
            assert(ends@ == fold_seq(opt_bytes(cli.ends_with), case_sensitive));
        }

        let mut adjusted: Vec<Vec<u8>> = Vec::new();
        match ignore_dirs {
            None => {
                proof {
                    assert(views_of(adjusted@) =~~= spec_res_ignore(cli));
                }
            },
            Some(list) => {
                let mut k: usize = 0;
                while k < list.len()
                    invariant
                        k <= list@.len(),
                        views_of(adjusted@) =~~= spec_adjusted_all(views_of(list@), canonicalize)
                            .take(k as int),
                        canonicalize == cli.canonicalize,
                    decreases list@.len() - k,
                {
                    let entry = &list[k];
                    let adj: Vec<u8> = if canonicalize {
                        entry.clone()
                    } else if entry.len() > 0 && entry[0] == 47u8 {
                        entry.clone()
                    } else {
                        let mut joined: Vec<u8> = Vec::new();
                        joined.push(46u8);
                        joined.push(47u8);
                        let mut m: usize = 0;
                        while m < entry.len()
                            invariant
                                m <= entry@.len(),
                                joined@ == seq![dot(), slash()] + entry@.take(m as int),
                            decreases entry@.len() - m,
                        {
                            joined.push(entry[m]);
                            proof {
                                assert(seq![dot(), slash()] + entry@.take(m + 1) =~= (seq![
                                    dot(),
                                    slash(),
                                ] + entry@.take(m as int)).push(entry@[m as int]));
                            }
                            m = m + 1;
                        }
                        proof {
                            assert(entry@.take(entry@.len() as int) =~= entry@);
                        }
                        joined
                    };
                    proof {
                        assert(adj@ == spec_adjust_ignore(list@[k as int]@, canonicalize));
                    }
                    let ghost pre = adjusted@;
                    adjusted.push(adj);
                    proof {
                        let full = spec_adjusted_all(views_of(list@), canonicalize);
                        assert(full.len() == list@.len());
                        assert(views_of(pre).len() == pre.len());
                        assert(pre.len() == k);
                        assert(adjusted@ == pre.push(adj));
                        assert forall|j: int| 0 <= j < k + 1 implies views_of(adjusted@)[j]
                            == full.take(k + 1)[j] by {
                            assert(views_of(adjusted@)[j] == adjusted@[j]@);
                            if j < k {
                                assert(adjusted@[j] == pre[j]);
                                assert(views_of(pre)[j] == pre[j]@);
                                assert(views_of(pre)[j] == full.take(k as int)[j]);
                            } else {
                                assert(adjusted@[j] == adj);
                                assert(full[j] == spec_adjust_ignore(
                                    views_of(list@)[j],
                                    canonicalize,
                                ));
                                assert(views_of(list@)[j] == list@[j]@);
                            }
                        }
                        assert(views_of(adjusted@) =~~= full.take(k + 1));
                    }
                    k = k + 1;
                }
                proof {
                    assert(spec_adjusted_all(views_of(list@), canonicalize).take(list@.len() as int)
                        =~~= spec_adjusted_all(views_of(list@), canonicalize));
                    assert(views_of(adjusted@) =~~= spec_res_ignore(cli));
                }
            },
        }

        let limit = dirs.len() > 0;

        Ok(
            Search::new(
                first,
                exact,
                canonicalize,
                case_sensitive,
                limit,
                verbose,
                hidden,
                select,
                multiselect,
                simple,
                name,
                starts,
                ends,
                ftype,
                adjusted,
                dirs,
            ),
        )
    }
}

} // verus!
