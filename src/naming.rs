//! File names of trap images and the records that list them.

use vstd::prelude::*;

verus! {

/// Characters that cannot stand in a file name on common filesystems.
pub open spec fn is_illegal_char(c: char) -> bool {
    c == '/' || c == '\\' || c == ':' || c == '*' || c == '?' || c == '"' || c == '<' || c == '>' || c == '|'
}

/// `c`, or an underscore where `c` cannot stand in a file name.
pub open spec fn safe_char(c: char) -> char {
    if is_illegal_char(c) {
        '_'
    } else {
        c
    }
}

/// `s` with every character that cannot stand in a file name replaced by an
/// underscore.
pub open spec fn sanitized(s: Seq<char>) -> Seq<char> {
    s.map_values(|c: char| safe_char(c))
}

/// Relies on String::push: appends one character.
#[verifier::external_body]
fn push_char(s: &mut String, c: char)
    ensures
        final(s)@ == old(s)@.push(c),
{
    s.push(c);
}

/// Replaces each character that cannot stand in a file name by `_`.
pub fn sanitize(s: &str) -> (r: String)
    ensures
        r@ == sanitized(s@),
{
    let mut r = String::new();
    let mut chars = s.chars();
    proof {
        broadcast use vstd::string::axiom_spec_iter;
    }
    for c in it: chars
        invariant
            it.seq() == s@,
            r@ == sanitized(it.seq().take(it.index() as int)),
    {
        let d: char = if c == '/' || c == '\\' || c == ':' || c == '*' || c == '?' || c == '"' || c == '<'
            || c == '>' || c == '|' {
            '_'
        } else {
            c
        };
        proof {
            assert(it.seq().take(it.index() + 1) =~= it.seq().take(it.index() as int).push(c));
        }
        push_char(&mut r, d);
        assert(r@ =~= sanitized(it.seq().take(it.index() + 1)));
    }
    proof {
        assert(s@.take(s@.len() as int) =~= s@);
    }
    r
}


/// The file name of the trap image of `source` over `target`:
/// `TRAP__<source>_over_<target>.png`, both names sanitized.
pub open spec fn trap_file_name_of(source: Seq<char>, target: Seq<char>) -> Seq<char> {
    "TRAP__"@ + sanitized(source) + "_over_"@ + sanitized(target) + ".png"@
}

/// Builds the file name of the trap image of `source` over `target`.
pub fn trap_file_name(source: &str, target: &str) -> (r: String)
    ensures
        r@ == trap_file_name_of(source@, target@),
{
    let mut r = String::from_str("TRAP__");
    let s = sanitize(source);
    r.append(s.as_str());
    r.append("_over_");
    let t = sanitize(target);
    r.append(t.as_str());
    r.append(".png");
    r
}

/// The directory, relative to the job folder, that holds the trap images.
pub open spec fn trap_dir_prefix() -> Seq<char> {
    "traps/"@
}

/// One entry of the manifest: the lower plate's name, the upper plate's
/// name, and the path of the trap image relative to the job folder.
pub struct TrapRecord {
    pub source: String,
    pub target: String,
    pub png: String,
}

/// The manifest entry for the trap of plate `lower` over plate `upper`.
pub fn trap_record(names: &Vec<String>, lower: usize, upper: usize) -> (r: TrapRecord)
    requires
        lower < names@.len(),
        upper < names@.len(),
    ensures
        r.source@ == names@[lower as int]@,
        r.target@ == names@[upper as int]@,
        r.png@ == trap_dir_prefix() + trap_file_name_of(names@[lower as int]@, names@[upper as int]@),
{
    let source = names[lower].clone();
    let target = names[upper].clone();
    let file = trap_file_name(source.as_str(), target.as_str());
    let mut png = String::from_str("traps/");
    png.append(file.as_str());
    TrapRecord { source, target, png }
}

} // verus!
