//! Which cache root a linker invocation asks the service about.

use vstd::prelude::*;
use vstd::slice::slice_to_vec;
use crate::wire::text_bytes;
use crate::wire::texts;

verus! {

/// The linker flag that names the cache root.
pub open spec fn incremental_cache_flag() -> Seq<char> {
    "-incremental_cache"@
}

/// Whether the argument at `i` is the cache flag and a value follows it.
pub open spec fn names_cache_dir(arguments: Seq<Seq<char>>, i: int) -> bool {
    0 <= i && i + 1 < arguments.len() && arguments[i] == incremental_cache_flag()
}

/// An argument names the cache root exactly when it is `-incremental_cache`
/// and another argument follows it.
pub proof fn lemma_names_cache_dir(arguments: Seq<Seq<char>>, i: int)
    ensures
        names_cache_dir(arguments, i) <==> (0 <= i && i + 1 < arguments.len() && arguments[i]
            == "-incremental_cache"@),
{
}

/// The cache root that parsed linker arguments carry: the service is asked
/// about it when there is one, and otherwise the link takes the ordinary path.
pub fn try_apply(incremental_cache: Option<&[u8]>) -> (cache_dir: Option<Vec<u8>>)
    ensures
        cache_dir is Some <==> incremental_cache is Some,
        cache_dir matches Some(d) ==> d@ == incremental_cache->Some_0@,
{
    match incremental_cache {
        Some(directory) => Some(slice_to_vec(directory)),
        None => None,
    }
}

/// Locates the cache root in the raw command line without the full linker
/// parser: the argument after the first `-incremental_cache` that has one.
/// The service itself parses and validates the whole command line.
pub fn try_apply_command_line(command_line: &[String]) -> (cache_dir: Option<String>)
    ensures
        cache_dir is None <==> forall|i: int| !names_cache_dir(texts(command_line@), i),
        cache_dir matches Some(d) ==> exists|i: int|
            {
                &&& names_cache_dir(texts(command_line@), i)
                &&& forall|j: int| 0 <= j < i ==> !names_cache_dir(texts(command_line@), j)
                &&& d@ == texts(command_line@)[i + 1]
            },
        forall|i: int|
            0 <= i && i + 1 < command_line@.len() && (#[trigger] command_line@[i])@
                == "-incremental_cache"@ && (forall|j: int|
                0 <= j < i ==> command_line@[j]@ != "-incremental_cache"@)
                ==> cache_dir is Some && cache_dir->Some_0@ == command_line@[i + 1]@,
        (forall|i: int|
            0 <= i && i + 1 < command_line@.len() ==> command_line@[i]@ != "-incremental_cache"@)
            ==> cache_dir is None,
{
    let ghost arguments = texts(command_line@);
    let flag_text = "-incremental_cache";
    let flag = flag_text.to_owned();
    let mut i: usize = 0;
    while i < command_line.len() && i + 1 < command_line.len()
        invariant
            arguments == texts(command_line@),
            arguments.len() == command_line@.len(),
            flag@ == incremental_cache_flag(),
            i <= command_line@.len(),
            forall|j: int| 0 <= j < i ==> !names_cache_dir(arguments, j),
        decreases command_line@.len() - i,
    {
        if command_line[i] == flag {
            let found = command_line[i + 1].clone();
            assert(names_cache_dir(arguments, i as int));
            assert forall|k: int|
                0 <= k && k + 1 < command_line@.len() && (#[trigger] command_line@[k])@
                    == "-incremental_cache"@ && (forall|j: int|
                    0 <= j < k ==> command_line@[j]@ != "-incremental_cache"@) implies found@
                == command_line@[k + 1]@ by {
                assert(arguments[k] == command_line@[k]@);
                if k < i {
                    assert(!names_cache_dir(arguments, k));
                }
                if k > i {
                    assert(command_line@[i as int]@ == "-incremental_cache"@);
                }
            }
            return Some(found);
        }
        i = i + 1;
    }
    assert forall|j: int| !names_cache_dir(arguments, j) by {
        if 0 <= j < i {
        }
    }
    assert forall|k: int| 0 <= k && k + 1 < command_line@.len() implies (#[trigger] command_line@[
        k
    ])@ != "-incremental_cache"@ by {
        assert(arguments[k] == command_line@[k]@);
        assert(!names_cache_dir(arguments, k));
    }
    None
}


/// How many times a client tries to connect to a service it has just started.
pub const STARTUP_RETRIES: usize = 100;

/// How long a client waits after each failed connection to a starting service.
pub const STARTUP_RETRY_MILLIS: u64 = 10;

/// What a client does next while a service it started comes up.
#[derive(Clone, Copy, Debug, PartialEq, Eq, Structural)]
pub enum StartupStep {
    /// Try to connect; after a failure, wait `STARTUP_RETRY_MILLIS`.
    Connect,
    /// Report that the service did not start.
    GiveUp,
}

/// The next step after `failed` connections to the started service have
/// failed: connect again until `STARTUP_RETRIES` attempts have failed.
pub fn startup_step(failed: usize) -> (step: StartupStep)
    ensures
        step == (if failed < STARTUP_RETRIES {
            StartupStep::Connect
        } else {
            StartupStep::GiveUp
        }),
{
    if failed < STARTUP_RETRIES {
        StartupStep::Connect
    } else {
        StartupStep::GiveUp
    }
}

/// The argument that starts a linker process as the service, as bytes.
pub open spec fn daemon_flag() -> Seq<u8> {
    text_bytes("--wild-macho-cache-service"@)
}

/// The arguments that start the service for `cache_dir`: the service flag,
/// then the cache root, each as its bytes.
pub fn daemon_arguments(cache_dir: &[u8]) -> (arguments: Vec<Vec<u8>>)
    ensures
        arguments@.len() == 2,
        arguments@[0]@ == daemon_flag(),
        arguments@[1]@ == cache_dir@,
{
    let flag = "--wild-macho-cache-service";
    let mut arguments: Vec<Vec<u8>> = Vec::new();
    arguments.push(slice_to_vec(flag.as_bytes()));
    arguments.push(slice_to_vec(cache_dir));
    arguments
}

} // verus!
