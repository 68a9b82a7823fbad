//! What goes into an Asar patch and what comes out of one: the patch
//! description, Asar's version, its messages, and the labels and writes
//! it reports. Loading Asar's library and running it is the application's
//! part.

use vstd::prelude::*;

use crate::addr::SnesAddr;
use crate::text::{dec_digits, push_dec, push_str};
use vstd::slice::slice_to_vec;
use vstd::utf8::encode_utf8;

verus! {

/// The API version this library is written against, Asar 1.91's. A
/// library with a later minor version is compatible; another major
/// version is not.
pub const API_VERSION: i32 = 303;

/// An Asar version. Asar writes it as its tool does: 1.9.1 is "1.91".
#[derive(Clone, Copy, PartialEq, Eq, PartialOrd, Ord, Debug, Structural)]
pub struct Version {
    pub major: u32,
    pub minor: u32,
    pub bugfix: u32,
}

impl Version {
    /// The Asar release a build pins, 1.91.
    pub fn pinned() -> (r: Self)
        ensures
            r == (Version { major: 1, minor: 9, bugfix: 1 }),
    {
        Version { major: 1, minor: 9, bugfix: 1 }
    }

    /// From Asar's `major * 10000 + minor * 100 + bugfix`.
    pub fn from_int(v: u32) -> (r: Self)
        ensures
            r == (Version { major: v / 10000, minor: (v / 100) % 100, bugfix: v % 100 }),
    {
        Version { major: v / 10000, minor: v / 100 % 100, bugfix: v % 100 }
    }

    /// `major.minorbugfix`, with a dot before the bug fix too when either
    /// of the last two has two digits.
    pub open spec fn text(self) -> Seq<char> {
        dec_digits(self.major as nat) + "."@ + dec_digits(self.minor as nat) + (if self.minor >= 10
            || self.bugfix >= 10 {
            "."@
        } else {
            Seq::empty()
        }) + dec_digits(self.bugfix as nat)
    }

    pub fn to_string(&self) -> (r: String)
        ensures
            r@ == self.text(),
    {
        let mut s = String::new();
        push_dec(&mut s, self.major as u64);
        push_str(&mut s, ".");
        push_dec(&mut s, self.minor as u64);
        if self.minor >= 10 || self.bugfix >= 10 {
            push_str(&mut s, ".");
        } else {
            proof {
                assert(s@ + Seq::<char>::empty() =~= s@);
            }
        }
        push_dec(&mut s, self.bugfix as u64);
        s
    }
}

/// A patch to apply: its main file, where its includes are found, the
/// defines it is given, the files it reads from memory, and the warnings
/// it turns on or off.
#[derive(Clone, Debug)]
pub struct Patch {
    main: String,
    include_paths: Vec<String>,
    defines: Vec<(String, String)>,
    files: Vec<(String, Vec<u8>)>,
    warnings: Vec<(String, bool)>,
}

impl Patch {
    pub closed spec fn spec_main(&self) -> Seq<char> {
        self.main@
    }

    pub closed spec fn spec_include_paths(&self) -> Seq<Seq<char>> {
        self.include_paths@.map_values(|p: String| p@)
    }

    pub closed spec fn spec_defines(&self) -> Seq<(Seq<char>, Seq<char>)> {
        self.defines@.map_values(|d: (String, String)| (d.0@, d.1@))
    }

    pub closed spec fn spec_files(&self) -> Seq<(Seq<char>, Seq<u8>)> {
        self.files@.map_values(|f: (String, Vec<u8>)| (f.0@, f.1@))
    }

    pub closed spec fn spec_warnings(&self) -> Seq<(Seq<char>, bool)> {
        self.warnings@.map_values(|w: (String, bool)| (w.0@, w.1))
    }

    /// The patch whose main file is at `main`. Relative paths are taken
    /// from the current directory.
    pub fn new(main: String) -> (r: Self)
        ensures
            r.spec_main() == main@,
            r.spec_include_paths() == Seq::<Seq<char>>::empty(),
            r.spec_defines() == Seq::<(Seq<char>, Seq<char>)>::empty(),
            r.spec_files() == Seq::<(Seq<char>, Seq<u8>)>::empty(),
            r.spec_warnings() == Seq::<(Seq<char>, bool)>::empty(),
    {
        let r = Patch {
            main,
            include_paths: Vec::new(),
            defines: Vec::new(),
            files: Vec::new(),
            warnings: Vec::new(),
        };
        assert(r.spec_include_paths() =~= Seq::<Seq<char>>::empty());
        assert(r.spec_defines() =~= Seq::<(Seq<char>, Seq<char>)>::empty());
        assert(r.spec_files() =~= Seq::<(Seq<char>, Seq<u8>)>::empty());
        assert(r.spec_warnings() =~= Seq::<(Seq<char>, bool)>::empty());
        r
    }

    /// A patch whose main file is `source`, held in memory as if at
    /// `path`, which its relative includes are resolved against.
    pub fn source(path: String, source: String) -> (r: Self)
        ensures
            r.spec_main() == path@,
            r.spec_include_paths() == Seq::<Seq<char>>::empty(),
            r.spec_defines() == Seq::<(Seq<char>, Seq<char>)>::empty(),
            r.spec_files() == seq![(path@, encode_utf8(source@))],
            r.spec_warnings() == Seq::<(Seq<char>, bool)>::empty(),
    {
        let bytes = string_bytes(&source);
        let main = path.clone();
        Self::new(main).file(path, bytes)
    }

    /// Another directory to look for included files in, after the
    /// including file's own.
    pub fn include_path(self, dir: String) -> (r: Self)
        ensures
            r.spec_main() == self.spec_main(),
            r.spec_include_paths() == self.spec_include_paths().push(dir@),
            r.spec_defines() == self.spec_defines(),
            r.spec_files() == self.spec_files(),
            r.spec_warnings() == self.spec_warnings(),
    {
        let mut r = self;
        let ghost before = r.include_paths@;
        r.include_paths.push(dir);
        assert(r.include_paths@.map_values(|p: String| p@) =~= before.map_values(
            |p: String| p@,
        ).push(dir@));
        r
    }

    /// Defines `!name` as `value`.
    pub fn define(self, name: String, value: String) -> (r: Self)
        ensures
            r.spec_main() == self.spec_main(),
            r.spec_include_paths() == self.spec_include_paths(),
            r.spec_defines() == self.spec_defines().push((name@, value@)),
            r.spec_files() == self.spec_files(),
            r.spec_warnings() == self.spec_warnings(),
    {
        let mut r = self;
        let ghost before = r.defines@;
        let ghost pair = (name@, value@);
        r.defines.push((name, value));
        assert(r.defines@.map_values(|d: (String, String)| (d.0@, d.1@)) =~= before.map_values(
            |d: (String, String)| (d.0@, d.1@),
        ).push(pair));
        r
    }

    /// A file held in memory as if at `path`, which takes the place of
    /// anything on disk there.
    pub fn file(self, path: String, contents: Vec<u8>) -> (r: Self)
        ensures
            r.spec_main() == self.spec_main(),
            r.spec_include_paths() == self.spec_include_paths(),
            r.spec_defines() == self.spec_defines(),
            r.spec_files() == self.spec_files().push((path@, contents@)),
            r.spec_warnings() == self.spec_warnings(),
    {
        let mut r = self;
        let ghost before = r.files@;
        let ghost pair = (path@, contents@);
        r.files.push((path, contents));
        assert(r.files@.map_values(|f: (String, Vec<u8>)| (f.0@, f.1@)) =~= before.map_values(
            |f: (String, Vec<u8>)| (f.0@, f.1@),
        ).push(pair));
        r
    }

    /// Turns an Asar warning (`W` and its name, as `Wfreespace_leaked`) on
    /// or off.
    pub fn warning(self, id: String, enabled: bool) -> (r: Self)
        ensures
            r.spec_main() == self.spec_main(),
            r.spec_include_paths() == self.spec_include_paths(),
            r.spec_defines() == self.spec_defines(),
            r.spec_files() == self.spec_files(),
            r.spec_warnings() == self.spec_warnings().push((id@, enabled)),
    {
        let mut r = self;
        let ghost before = r.warnings@;
        let ghost pair = (id@, enabled);
        r.warnings.push((id, enabled));
        assert(r.warnings@.map_values(|w: (String, bool)| (w.0@, w.1)) =~= before.map_values(
            |w: (String, bool)| (w.0@, w.1),
        ).push(pair));
        r
    }

    /// The main file's path.
    pub fn main_path(&self) -> (r: &String)
        ensures
            r@ == self.spec_main(),
    {
        &self.main
    }

    pub fn include_paths(&self) -> (r: &Vec<String>)
        ensures
            r@.map_values(|p: String| p@) == self.spec_include_paths(),
    {
        &self.include_paths
    }

    pub fn defines(&self) -> (r: &Vec<(String, String)>)
        ensures
            r@.map_values(|d: (String, String)| (d.0@, d.1@)) == self.spec_defines(),
    {
        &self.defines
    }

    pub fn files(&self) -> (r: &Vec<(String, Vec<u8>)>)
        ensures
            r@.map_values(|f: (String, Vec<u8>)| (f.0@, f.1@)) == self.spec_files(),
    {
        &self.files
    }

    pub fn warnings(&self) -> (r: &Vec<(String, bool)>)
        ensures
            r@.map_values(|w: (String, bool)| (w.0@, w.1)) == self.spec_warnings(),
    {
        &self.warnings
    }
}

/// The string's UTF-8 bytes.
fn string_bytes(s: &String) -> (r: Vec<u8>)
    ensures
        r@ == encode_utf8(s@),
{
    slice_to_vec(s.as_str().as_bytes())
}

/// A warning or error, as Asar reports it.
#[derive(Clone, PartialEq, Eq, Debug)]
pub struct Message {
    /// The whole message, with its file, line, and source line.
    pub text: String,
    /// The message alone.
    pub raw: String,
    /// The file it is about, if any.
    pub file: Option<String>,
    /// Its line in that file, counting from 1.
    pub line: Option<u32>,
}

impl Message {
    /// The whole message.
    pub fn to_string(&self) -> (r: String)
        ensures
            r@ == self.text@,
    {
        self.text.clone()
    }
}

#[derive(Clone, PartialEq, Eq, Debug)]
pub struct Label {
    pub name: String,
    pub addr: SnesAddr,
}

/// What a patch reported besides its errors.
#[derive(Clone, PartialEq, Eq, Debug)]
pub struct Output {
    pub warnings: Vec<Message>,
    /// What `print` printed, in order.
    pub prints: Vec<String>,
    /// Every label, by name.
    pub labels: Vec<Label>,
    /// The file ranges the patch wrote, erasures included, as start and
    /// end.
    pub written: Vec<(usize, usize)>,
}

impl Default for Output {
    fn default() -> (r: Self)
        ensures
            r.warnings@.len() == 0,
            r.prints@.len() == 0,
            r.labels@.len() == 0,
            r.written@.len() == 0,
    {
        Output { warnings: Vec::new(), prints: Vec::new(), labels: Vec::new(), written: Vec::new() }
    }
}

/// The first of `labels` named `name`.
pub open spec fn first_label(labels: Seq<Label>, name: Seq<char>) -> Option<SnesAddr>
    decreases labels.len(),
{
    if labels.len() == 0 {
        None
    } else if labels[0].name@ == name {
        Some(labels[0].addr)
    } else {
        first_label(labels.drop_first(), name)
    }
}

impl Output {
    /// The address of the label `name`; the first, if Asar reported it
    /// twice.
    pub fn label(&self, name: &str) -> (r: Option<SnesAddr>)
        ensures
            r == first_label(self.labels@, name@),
    {
        let wanted = name.to_owned();
        let mut i: usize = 0;
        assert(self.labels@.subrange(0, self.labels@.len() as int) =~= self.labels@);
        while i < self.labels.len()
            invariant
                i <= self.labels@.len(),
                wanted@ == name@,
                first_label(self.labels@, name@) == first_label(
                    self.labels@.subrange(i as int, self.labels@.len() as int),
                    name@,
                ),
            decreases self.labels@.len() - i,
        {
            let ghost rest = self.labels@.subrange(i as int, self.labels@.len() as int);
            assert(rest.drop_first() =~= self.labels@.subrange(i + 1, self.labels@.len() as int));
            if self.labels[i].name == wanted {
                return Some(self.labels[i].addr);
            }
            i = i + 1;
        }
        None
    }
}

/// A patched image and what Asar reported.
#[derive(Clone, Debug)]
pub struct Patched {
    pub rom: Vec<u8>,
    pub output: Output,
}

} // verus!
