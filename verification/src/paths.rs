//! Layout of the portable folder.
use vstd::prelude::*;

use crate::text::{chars_of, owned, push_char, push_str};

verus! {

/// `base` joined with a relative `name`: the name alone for an empty base, no separator after
/// a trailing one (`/`, or also `\` on Windows), else the platform separator between them.
pub open spec fn join_of(base: Seq<char>, name: Seq<char>, windows: bool) -> Seq<char> {
    if base.len() == 0 {
        name
    } else if base.last() == '/' || (windows && base.last() == '\\') {
        base + name
    } else {
        base + seq![if windows { '\\' } else { '/' }] + name
    }
}

pub fn join(base: &str, name: &str, windows: bool) -> (p: String)
    ensures
        p@ == join_of(base@, name@, windows),
{
    let b = chars_of(base);
    let mut p = owned(base);
    if b.len() > 0 && !(b[b.len() - 1] == '/' || (windows && b[b.len() - 1] == '\\')) {
        push_char(&mut p, if windows { '\\' } else { '/' });
    }
    push_str(&mut p, name);
    p
}

/// Where the portable application keeps its runtime and data.
#[derive(Debug, Clone)]
pub struct AppPaths {
    pub root: String,
    pub data: String,
    pub runtime: String,
    pub ffmpeg: String,
    pub ffprobe: String,
    pub ffplay: String,
    pub voicestudio_backend: String,
    pub settings: String,
}

pub open spec fn exe_name(stem: Seq<char>, windows: bool) -> Seq<char> {
    if windows {
        stem + ".exe"@
    } else {
        stem
    }
}

/// The layout under a root folder.
pub open spec fn layout_of(p: AppPaths, root: Seq<char>, windows: bool) -> bool {
    let data = join_of(root, "data"@, windows);
    let runtime = join_of(root, "runtime"@, windows);
    let bin = join_of(join_of(runtime, "ffmpeg"@, windows), "bin"@, windows);
    &&& p.root@ == root
    &&& p.data@ == data
    &&& p.runtime@ == runtime
    &&& p.settings@ == join_of(data, "settings.json"@, windows)
    &&& p.ffmpeg@ == join_of(bin, exe_name("ffmpeg"@, windows), windows)
    &&& p.ffprobe@ == join_of(bin, exe_name("ffprobe"@, windows), windows)
    &&& p.ffplay@ == join_of(bin, exe_name("ffplay"@, windows), windows)
    &&& p.voicestudio_backend@ == join_of(
        join_of(join_of(runtime, "voicestudio"@, windows), "backend"@, windows),
        exe_name("omnivoice-backend"@, windows),
        windows,
    )
}

fn exe(stem: &str, windows: bool) -> (s: String)
    ensures
        s@ == exe_name(stem@, windows),
{
    let mut s = owned(stem);
    if windows {
        push_str(&mut s, ".exe");
    }
    s
}

impl AppPaths {
    pub fn under_root(root: &str, windows: bool) -> (p: AppPaths)
        ensures
            layout_of(p, root@, windows),
    {
        let data = join(root, "data", windows);
        let runtime = join(root, "runtime", windows);
        let ffdir = join(runtime.as_str(), "ffmpeg", windows);
        let bin = join(ffdir.as_str(), "bin", windows);
        let vs = join(runtime.as_str(), "voicestudio", windows);
        let backend_dir = join(vs.as_str(), "backend", windows);
        let ffmpeg_name = exe("ffmpeg", windows);
        let ffprobe_name = exe("ffprobe", windows);
        let ffplay_name = exe("ffplay", windows);
        let backend_name = exe("omnivoice-backend", windows);
        AppPaths {
            settings: join(data.as_str(), "settings.json", windows),
            ffmpeg: join(bin.as_str(), ffmpeg_name.as_str(), windows),
            ffprobe: join(bin.as_str(), ffprobe_name.as_str(), windows),
            ffplay: join(bin.as_str(), ffplay_name.as_str(), windows),
            voicestudio_backend: join(backend_dir.as_str(), backend_name.as_str(), windows),
            root: owned(root),
            data,
            runtime,
        }
    }
}

/// Folders created under `data` at start-up, in order.
pub open spec fn data_dir_names() -> Seq<Seq<char>> {
    seq!["cache"@, "jobs"@, "models"@, "updates"@, "logs"@]
}

/// The folders `ensure_dirs` creates: `data` itself, then its sub-folders.
pub fn required_dirs(paths: &AppPaths, windows: bool) -> (dirs: Vec<String>)
    ensures
        dirs@.len() == 6,
        dirs@[0]@ == paths.data@,
        forall|i: int| 1 <= i < 6 ==> (#[trigger] dirs@[i])@ == join_of(paths.data@, data_dir_names()[i - 1], windows),
{
    let names = vec!["cache", "jobs", "models", "updates", "logs"];
    let mut dirs = Vec::new();
    dirs.push(owned(paths.data.as_str()));
    let mut i: usize = 0;
    proof {
        reveal_strlit("cache");
        reveal_strlit("jobs");
        reveal_strlit("models");
        reveal_strlit("updates");
        reveal_strlit("logs");
        assert(names@.map_values(|n: &str| n@) =~= data_dir_names());
    }
    while i < names.len()
        invariant
            i <= names@.len(),
            names@.map_values(|n: &str| n@) == data_dir_names(),
            names@.len() == 5,
            dirs@.len() == i + 1,
            dirs@[0]@ == paths.data@,
            forall|k: int| 1 <= k < i + 1 ==> (#[trigger] dirs@[k])@ == join_of(paths.data@, data_dir_names()[k - 1], windows),
        decreases names.len() - i,
    {
        assert(names@[i as int]@ == data_dir_names()[i as int]);
        dirs.push(join(paths.data.as_str(), names[i], windows));
        i += 1;
    }
    dirs
}

} // verus!
