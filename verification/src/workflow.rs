//! The decisions of the command-line tool: where a reference points, whether
//! a breaking-change report blocks, which plugin binary runs, and which
//! files and directories schema discovery takes.

use vstd::prelude::*;
use vstd::string::StringSliceAdditionalSpecFns;
use crate::breaking::{Level, Violation, nat_text};
use crate::tree::{bytes_to_string, same_text, text_of};

verus! {

// ── Bytes and text ─────────────────────────────────────────────────────

/// `b` starts with `p`.
pub open spec fn has_prefix(b: Seq<u8>, p: Seq<u8>) -> bool {
    p.len() <= b.len() && b.take(p.len() as int) == p
}

fn starts_with_bytes(b: &[u8], p: &[u8]) -> (r: bool)
    ensures
        r == has_prefix(b@, p@),
{
    if p.len() > b.len() {
        return false;
    }
    let mut i: usize = 0;
    while i < p.len()
        invariant
            i <= p.len() <= b.len(),
            forall|j: int| 0 <= j < i ==> b@[j] == p@[j],
        decreases p.len() - i,
    {
        if b[i] != p[i] {
            assert(b@.take(p.len() as int)[i as int] != p@[i as int]);
            return false;
        }
        i += 1;
    }
    assert(b@.take(p.len() as int) =~= p@);
    true
}

/// `Display` of an unsigned integer: its decimal text.
#[verifier::external_body]
pub(crate) fn count_string(n: u64) -> (s: String)
    ensures
        s@ == nat_text(n as nat),
{
    n.to_string()
}

// ── References ─────────────────────────────────────────────────────────

/// Where the old schemas of a breaking-change check come from.
#[derive(Debug, Clone, PartialEq, Eq)]
pub enum Reference {
    /// A git revision: `git:<ref>`.
    Git(String),
    /// A directory: `./path/` or `/path/`.
    Dir(String),
}

/// The bytes of `git:`.
pub open spec fn git_prefix() -> Seq<u8> {
    seq![103u8, 105u8, 116u8, 58u8]
}

/// Whether the reference names a directory: it starts with `./` or `/`.
pub open spec fn names_dir(b: Seq<u8>) -> bool {
    has_prefix(b, seq![46u8, 47u8]) || has_prefix(b, seq![47u8])
}

/// What a reference given on the command line points to.
pub fn parse_reference(against: &str) -> (r: Result<Reference, String>)
    ensures
        ({
            let b = against.spec_bytes();
            match r {
                Ok(Reference::Git(s)) => has_prefix(b, git_prefix()) && s@ == text_of(b.skip(4)),
                Ok(Reference::Dir(s)) => !has_prefix(b, git_prefix()) && names_dir(b) && s@ == against@,
                Err(m) => !has_prefix(b, git_prefix()) && !names_dir(b) && m@
                    == "unsupported reference format: '"@ + against@
                    + "'. Use git:<ref> or ./path/"@,
            }
        }),
{
    let b = against.as_bytes();
    let git: Vec<u8> = vec![103u8, 105u8, 116u8, 58u8];
    let dot_slash: Vec<u8> = vec![46u8, 47u8];
    let slash: Vec<u8> = vec![47u8];
    proof {
        assert(git@ =~= git_prefix());
        assert(dot_slash@ =~= seq![46u8, 47u8]);
        assert(slash@ =~= seq![47u8]);
    }
    if starts_with_bytes(b, git.as_slice()) {
        let mut rest: Vec<u8> = Vec::new();
        let mut i: usize = 4;
        while i < b.len()
            invariant
                4 <= i <= b.len(),
                rest@ == b@.subrange(4, i as int),
            decreases b.len() - i,
        {
            rest.push(b[i]);
            i += 1;
            proof {
                assert(rest@ =~= b@.subrange(4, i as int));
            }
        }
        proof {
            assert(b@.skip(4) =~= b@.subrange(4, b@.len() as int));
        }
        Ok(Reference::Git(bytes_to_string(rest)))
    } else if starts_with_bytes(b, dot_slash.as_slice()) || starts_with_bytes(b, slash.as_slice()) {
        Ok(Reference::Dir(against.to_owned()))
    } else {
        let mut m = "unsupported reference format: '".to_owned();
        m.append(against);
        m.append("'. Use git:<ref> or ./path/");
        Err(m)
    }
}

// ── Breaking-change verdict ────────────────────────────────────────────

/// How many violations have level `l`.
pub open spec fn count_level(vs: Seq<Violation>, l: Level) -> nat
    decreases vs.len(),
{
    if vs.len() == 0 {
        0
    } else {
        count_level(vs.drop_last(), l) + if vs.last().level == l {
            1nat
        } else {
            0nat
        }
    }
}

/// The numbers of errors, warnings and infos.
pub fn count_levels(violations: &[Violation]) -> (r: (usize, usize, usize))
    ensures
        r.0 == count_level(violations@, Level::Error),
        r.1 == count_level(violations@, Level::Warning),
        r.2 == count_level(violations@, Level::Info),
        r.0 + r.1 + r.2 == violations@.len(),
{
    let mut errors: usize = 0;
    let mut warnings: usize = 0;
    let mut infos: usize = 0;
    let mut i: usize = 0;
    while i < violations.len()
        invariant
            i <= violations@.len(),
            errors == count_level(violations@.take(i as int), Level::Error),
            warnings == count_level(violations@.take(i as int), Level::Warning),
            infos == count_level(violations@.take(i as int), Level::Info),
            errors + warnings + infos == i,
        decreases violations.len() - i,
    {
        proof {
            assert(violations@.take(i + 1).drop_last() =~= violations@.take(i as int));
        }
        match violations[i].level {
            Level::Error => errors += 1,
            Level::Warning => warnings += 1,
            Level::Info => infos += 1,
        }
        i += 1;
    }
    proof {
        assert(violations@.take(violations@.len() as int) =~= violations@);
    }
    (errors, warnings, infos)
}

/// Whether a breaking-change report blocks: with `force` nothing blocks;
/// with `allow` only errors block; otherwise errors and warnings block.
pub fn breaking_verdict(violations: &[Violation], force: bool, allow: bool) -> (r: Result<(), String>)
    ensures
        ({
            let e = count_level(violations@, Level::Error);
            let w = count_level(violations@, Level::Warning);
            if force {
                r is Ok
            } else if allow {
                &&& (r is Err <==> e > 0)
                &&& r matches Err(m) ==> m@ == nat_text(e) + " breaking change(s) detected"@
            } else {
                &&& (r is Err <==> e + w > 0)
                &&& r matches Err(m) ==> m@ == nat_text(e + w)
                    + " breaking change(s) detected (use --allow to ignore warnings, --force to ignore all)"@
            }
        }),
{
    let n = violations.len();
    let (errors, warnings, _infos) = count_levels(violations);
    assert(errors + warnings <= n);
    if force {
        Ok(())
    } else if allow {
        if errors > 0 {
            let mut m = count_string(errors as u64);
            m.append(" breaking change(s) detected");
            Err(m)
        } else {
            Ok(())
        }
    } else {
        if errors > 0 || warnings > 0 {
            let mut m = count_string((errors + warnings) as u64);
            m.append(" breaking change(s) detected (use --allow to ignore warnings, --force to ignore all)");
            Err(m)
        } else {
            Ok(())
        }
    }
}

// ── Plugins ────────────────────────────────────────────────────────────

/// The position of the last `/` in `b` (-1 if none).
pub open spec fn last_slash(b: Seq<u8>) -> int
    decreases b.len(),
{
    if b.len() == 0 {
        -1
    } else if b.last() == 47 {
        b.len() - 1
    } else {
        last_slash(b.drop_last())
    }
}

/// The bytes of `ogham-gen-`.
pub open spec fn gen_prefix() -> Seq<u8> {
    seq![111u8, 103u8, 104u8, 97u8, 109u8, 45u8, 103u8, 101u8, 110u8, 45u8]
}

/// The binary that runs a plugin named by module path: the path's last
/// segment, with `ogham-gen-` in front unless it is there already.
pub open spec fn plugin_binary_bytes(name: Seq<u8>) -> Seq<u8> {
    let short = name.skip(last_slash(name) + 1);
    if has_prefix(short, gen_prefix()) {
        short
    } else {
        gen_prefix() + short
    }
}

proof fn lemma_last_slash(b: Seq<u8>)
    ensures
        -1 <= last_slash(b) < b.len(),
        forall|j: int| last_slash(b) < j < b.len() ==> b[j] != 47,
    decreases b.len(),
{
    if b.len() > 0 && b.last() != 47 {
        lemma_last_slash(b.drop_last());
        assert forall|j: int| last_slash(b) < j < b.len() implies b[j] != 47 by {
            if j < b.len() - 1 {
                assert(b.drop_last()[j] == b[j]);
            }
        }
    }
}

/// The binary to run for a plugin: its explicit path if given, else the
/// binary named after the plugin's module path.
pub fn plugin_binary(name: &str, explicit_path: Option<&str>) -> (r: String)
    ensures
        match explicit_path {
            Some(p) => r@ == p@,
            None => r@ == text_of(plugin_binary_bytes(name.spec_bytes())),
        },
{
    match explicit_path {
        Some(p) => p.to_owned(),
        None => {
            let b = name.as_bytes();
            let mut k: usize = b.len();
            assert(b@.take(k as int) =~= b@);
            while k > 0 && b[k - 1] != 47
                invariant
                    k <= b.len(),
                    forall|j: int| k <= j < b.len() ==> b@[j] != 47,
                    last_slash(b@) == last_slash(b@.take(k as int)),
                decreases k,
            {
                proof {
                    assert(b@.take(k as int).drop_last() =~= b@.take(k - 1));
                }
                k -= 1;
            }
            proof {
                if k > 0 {
                    assert(b@.take(k as int).last() == b@[k - 1]);
                }
                lemma_last_slash(b@);
            }
            let mut short: Vec<u8> = Vec::new();
            let mut i: usize = k;
            while i < b.len()
                invariant
                    k <= i <= b.len(),
                    short@ == b@.subrange(k as int, i as int),
                decreases b.len() - i,
            {
                short.push(b[i]);
                i += 1;
                proof {
                    assert(short@ =~= b@.subrange(k as int, i as int));
                }
            }
            proof {
                assert(short@ =~= b@.skip(last_slash(b@) + 1));
            }
            let prefix: Vec<u8> = vec![111u8, 103u8, 104u8, 97u8, 109u8, 45u8, 103u8, 101u8, 110u8, 45u8];
            proof {
                assert(prefix@ =~= gen_prefix());
            }
            if starts_with_bytes(short.as_slice(), prefix.as_slice()) {
                bytes_to_string(short)
            } else {
                let mut full = prefix;
                let ghost p = full@;
                full.append(&mut short);
                bytes_to_string(full)
            }
        },
    }
}

// ── Schema discovery ───────────────────────────────────────────────────

/// Whether discovery skips a directory of this name: hidden directories,
/// and `vendor`, `node_modules`, `target` and `gen`.
pub fn skips_dir(name: &str) -> (r: bool)
    ensures
        r == ((name.spec_bytes().len() > 0 && name.spec_bytes()[0] == 46) || name@ == "vendor"@
            || name@ == "node_modules"@ || name@ == "target"@ || name@ == "gen"@),
{
    let b = name.as_bytes();
    (b.len() > 0 && b[0] == 46) || same_text(name, "vendor") || same_text(name, "node_modules")
        || same_text(name, "target") || same_text(name, "gen")
}

/// Whether a file with this extension is a schema.
pub fn is_schema_extension(ext: &str) -> (r: bool)
    ensures
        r == (ext@ == "ogham"@),
{
    same_text(ext, "ogham")
}

} // verus!
