//! The command lines given to cargo.
use vstd::prelude::*;

verus! {

pub open spec fn strings_view(s: Seq<String>) -> Seq<Seq<char>> {
    s.map_values(|a: String| a@)
}

fn strings(items: &Vec<&str>) -> (r: Vec<String>)
    ensures
        strings_view(r@) == items@.map_values(|a: &str| a@),
{
    let mut r: Vec<String> = Vec::new();
    let mut i: usize = 0;
    while i < items.len()
        invariant
            i <= items@.len(),
            strings_view(r@) == items@.take(i as int).map_values(|a: &str| a@),
        decreases items@.len() - i,
    {
        let ghost before = r@;
        r.push(String::from_str(items[i]));
        proof {
            assert(strings_view(r@) =~= strings_view(before).push(items@[i as int]@));
            assert(items@.take(i + 1).map_values(|a: &str| a@) =~= items@.take(i as int).map_values(
                |a: &str| a@,
            ).push(items@[i as int]@));
        }
        i = i + 1;
    }
    assert(items@.take(i as int) =~= items@);
    r
}

fn append_all(dst: &mut Vec<String>, src: &Vec<String>)
    ensures
        strings_view(final(dst)@) == strings_view(old(dst)@) + strings_view(src@),
{
    let mut i: usize = 0;
    let ghost start = strings_view(dst@);
    while i < src.len()
        invariant
            i <= src@.len(),
            start == strings_view(old(dst)@),
            strings_view(dst@) == start + strings_view(src@.take(i as int)),
        decreases src@.len() - i,
    {
        let ghost before = dst@;
        dst.push(src[i].clone());
        proof {
            assert(strings_view(dst@) =~= strings_view(before).push(src@[i as int]@));
            assert(strings_view(src@.take(i + 1)) =~= strings_view(src@.take(i as int)).push(
                src@[i as int]@,
            ));
        }
        i = i + 1;
    }
    assert(src@.take(i as int) =~= src@);
}

/// The arguments of one cargo run: the subcommand, the given arguments, and `-q` when `quiet`.
pub open spec fn cargo_argument_list(cargo_cmd: Seq<char>, args: Seq<Seq<char>>, quiet: bool) -> Seq<
    Seq<char>,
> {
    seq![cargo_cmd] + args + if quiet {
        seq!["-q"@]
    } else {
        Seq::empty()
    }
}

/// The arguments of one cargo run: the subcommand, `args`, and `-q` when `quiet`.
pub fn cargo_arguments(cargo_cmd: &str, args: &Vec<String>, quiet: bool) -> (r: Vec<String>)
    ensures
        strings_view(r@) == cargo_argument_list(cargo_cmd@, strings_view(args@), quiet),
{
    let mut r: Vec<String> = Vec::new();
    r.push(String::from_str(cargo_cmd));
    append_all(&mut r, args);
    if quiet {
        let ghost before = r@;
        r.push(String::from_str("-q"));
        assert(strings_view(r@) =~= strings_view(before).push("-q"@));
    }
    assert(strings_view(r@) =~= cargo_argument_list(cargo_cmd@, strings_view(args@), quiet));
    r
}

/// The cargo subcommand and arguments that bring the packages of the root project: `vendor`
/// with the destination when one is given, else `fetch`; the caller's arguments follow.
pub open spec fn fetch_command(vendor_dir: Option<Seq<char>>, cargo_args: Seq<Seq<char>>) -> (
    Seq<char>,
    Seq<Seq<char>>,
) {
    match vendor_dir {
        Some(dir) => ("vendor"@, seq![dir] + cargo_args),
        None => ("fetch"@, cargo_args),
    }
}

/// The cargo subcommand and arguments that fetch the root project's packages, or vendor them
/// into `vendor_dir`.
pub fn fetch_invocation(vendor_dir: &Option<String>, cargo_args: &Vec<String>) -> (r: (
    String,
    Vec<String>,
))
    ensures
        (r.0@, strings_view(r.1@)) == fetch_command(
            match vendor_dir {
                Some(d) => Some(d@),
                None => None,
            },
            strings_view(cargo_args@),
        ),
{
    match vendor_dir {
        Some(dir) => {
            let mut args: Vec<String> = Vec::new();
            args.push(dir.clone());
            let ghost first = strings_view(args@);
            append_all(&mut args, cargo_args);
            assert(first =~= seq![dir@]);
            (String::from_str("vendor"), args)
        },
        None => {
            let mut args: Vec<String> = Vec::new();
            append_all(&mut args, cargo_args);
            assert(strings_view(args@) =~= strings_view(cargo_args@));
            (String::from_str("fetch"), args)
        },
    }
}

/// The arguments of `cargo new` for the project `name`: a library, without version control.
pub open spec fn new_project_argument_list(name: Seq<char>) -> Seq<Seq<char>> {
    seq!["--lib"@, "--vcs"@, "none"@, name]
}

/// The arguments of `cargo new` that create the project `name` in the current directory.
pub fn new_project_arguments(name: &String) -> (r: Vec<String>)
    ensures
        strings_view(r@) == new_project_argument_list(name@),
{
    let mut r = strings(&vec!["--lib", "--vcs", "none"]);
    let ghost before = r@;
    r.push(name.clone());
    proof {
        assert(strings_view(r@) =~= strings_view(before).push(name@));
        assert(new_project_argument_list(name@) =~= seq!["--lib"@, "--vcs"@, "none"@].push(name@));
    }
    r
}

} // verus!
