//! Paths as the bytes the system names files by.

use crate::text::chars_of;
use vstd::prelude::*;

verus! {

/// Whether a path starts at the root.
pub open spec fn absolute(path: Seq<u8>) -> bool {
    path.len() > 0 && path[0] == 0x2f
}

/// A path below another.
pub open spec fn below(base: Seq<u8>, name: Seq<u8>) -> Seq<u8> {
    if base.len() == 0 || base.last() == 0x2f {
        base + name
    } else {
        base.push(0x2f) + name
    }
}

/// The ASCII bytes of `text`.
pub open spec fn ascii(text: Seq<char>) -> Seq<u8> {
    Seq::new(text.len(), |i: int| text[i] as u8)
}

/// Whether `text` is all ASCII.
pub open spec fn is_ascii(text: Seq<char>) -> bool {
    forall|i: int| 0 <= i < text.len() ==> (#[trigger] text[i] as u32) < 128
}

/// The environment's variables that say where files are.
#[derive(Debug)]
pub struct Environment {
    /// `HOME`.
    pub home: Option<Vec<u8>>,
    /// `OMAWIND_CONFIG`.
    pub omawind_config: Option<Vec<u8>>,
    /// `XDG_CONFIG_HOME`.
    pub config_home: Option<Vec<u8>>,
    /// `XDG_CACHE_HOME`.
    pub cache_home: Option<Vec<u8>>,
    /// `XDG_RUNTIME_DIR`.
    pub runtime_dir: Option<Vec<u8>>,
}

/// The bytes of a variable, if it is set.
pub open spec fn variable(v: Option<Vec<u8>>) -> Option<Seq<u8>> {
    match v {
        Some(v) => Some(v@),
        None => None,
    }
}

/// Home, or the root when nothing says where that is.
pub open spec fn home_path(home: Option<Seq<u8>>) -> Seq<u8> {
    match home {
        Some(p) => p,
        None => ascii("/"@),
    }
}

/// A base directory: the one the environment names, if that is an absolute
/// path, else a folder at home.
pub open spec fn base_path(xdg: Option<Seq<u8>>, home: Option<Seq<u8>>, folder: Seq<char>) -> Seq<
    u8,
> {
    if xdg is Some && absolute(xdg->0) {
        xdg->0
    } else {
        below(home_path(home), ascii(folder))
    }
}

pub fn is_absolute(path: &[u8]) -> (r: bool)
    ensures
        r == absolute(path@),
{
    path.len() > 0 && path[0] == 0x2f
}

/// A copy of a path.
pub fn copy_path(path: &[u8]) -> (r: Vec<u8>)
    ensures
        r@ == path@,
{
    let mut out: Vec<u8> = Vec::new();
    let mut i: usize = 0;
    while i < path.len()
        invariant
            i <= path@.len(),
            out@ == path@.take(i as int),
        decreases path@.len() - i,
    {
        out.push(path[i]);
        i += 1;
        assert(out@ =~= path@.take(i as int));
    }
    assert(path@.take(i as int) =~= path@);
    out
}

/// The path of `name`, an ASCII name, below another.
pub fn join(base: &[u8], name: &str) -> (r: Vec<u8>)
    requires
        is_ascii(name@),
    ensures
        r@ == below(base@, ascii(name@)),
{
    let mut out = copy_path(base);
    if base.len() > 0 && base[base.len() - 1] != 0x2f {
        out.push(0x2f);
    }
    let ghost start = out@;
    let chars = chars_of(name);
    let mut i: usize = 0;
    while i < chars.len()
        invariant
            i <= chars@.len(),
            chars@ == name@,
            is_ascii(name@),
            out@ == start + ascii(name@).take(i as int),
        decreases chars@.len() - i,
    {
        let c: char = chars[i];
        assert((name@[i as int] as u32) < 128);
        out.push(c as u8);
        i += 1;
        assert(out@ =~= start + ascii(name@).take(i as int));
    }
    assert(ascii(name@).take(i as int) =~= ascii(name@));
    out
}

/// A base directory: the one the environment names, if that is an absolute
/// path, else a folder at home.
pub fn base(xdg: &Option<Vec<u8>>, home: &Option<Vec<u8>>, folder: &str) -> (r: Vec<u8>)
    requires
        is_ascii(folder@),
    ensures
        r@ == base_path(variable(*xdg), variable(*home), folder@),
{
    if let Some(p) = xdg {
        if is_absolute(p.as_slice()) {
            return copy_path(p.as_slice());
        }
    }
    join(home_or_root(home).as_slice(), folder)
}

/// Home, or the root when nothing says where that is.
pub fn home_or_root(home: &Option<Vec<u8>>) -> (r: Vec<u8>)
    ensures
        r@ == home_path(variable(*home)),
{
    match home {
        Some(p) => copy_path(p.as_slice()),
        None => {
            proof {
                reveal_strlit("/");
            }
            let mut out: Vec<u8> = Vec::new();
            out.push(0x2f);
            assert(out@ =~= ascii("/"@));
            out
        },
    }
}

/// A socket in a folder of the runtime directory, if that is known.
pub open spec fn socket_path(runtime: Option<Seq<u8>>, folder: Seq<char>, name: Seq<char>) -> Option<
    Seq<u8>,
> {
    if runtime is Some && absolute(runtime->0) {
        Some(below(below(runtime->0, ascii(folder)), ascii(name)))
    } else {
        None
    }
}

/// A socket in a folder of the runtime directory, if that is known.
pub fn socket(runtime: &Option<Vec<u8>>, folder: &str, name: &str) -> (r: Option<Vec<u8>>)
    requires
        is_ascii(folder@),
        is_ascii(name@),
    ensures
        variable(r) == socket_path(variable(*runtime), folder@, name@),
{
    if let Some(p) = runtime {
        if is_absolute(p.as_slice()) {
            return Some(join(join(p.as_slice(), folder).as_slice(), name));
        }
    }
    None
}

} // verus!
