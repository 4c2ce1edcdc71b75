//! Workspace-aware filesystem layout: the single source of truth for the
//! on-disk locations that the runtime around the engine uses. Paths are
//! built as plain text; nothing here touches the filesystem.

use vstd::prelude::*;
use vstd::string::StringExecFns;

verus! {

/// The run directory of one workspace: `<run>/<ws>`.
pub open spec fn ws_run_dir_spec(run: Seq<char>, ws: Seq<char>) -> Seq<char> {
    run + "/"@ + ws
}

/// A file inside the workspace run directory.
pub open spec fn ws_file_spec(run: Seq<char>, ws: Seq<char>, name: Seq<char>) -> Seq<char> {
    ws_run_dir_spec(run, ws) + "/"@ + name
}

/// Filesystem layout rooted at the runtime's home directory.
pub struct Paths {
    pub root: String,
    pub run: String,
    pub ws: String,
}

impl Paths {
    /// The layout under a given root: the run area is `<root>/run`.
    pub fn new(root: String, ws: String) -> (r: Paths)
        ensures
            r.root@ == root@,
            r.run@ == root@ + "/run"@,
            r.ws@ == ws@,
    {
        let mut run = root.clone();
        run.append("/run");
        proof {
            assert(run@ =~= root@ + "/run"@);
        }
        Paths { root, run, ws }
    }

    /// `<run>/<ws>/`
    pub fn ws_run_dir(&self) -> (r: String)
        ensures
            r@ == ws_run_dir_spec(self.run@, self.ws@),
    {
        let mut s = self.run.clone();
        s.append("/");
        s.append(self.ws.as_str());
        proof {
            assert(s@ =~= ws_run_dir_spec(self.run@, self.ws@));
        }
        s
    }

    /// `<run>/<ws>/control.sock` (the control-plane socket)
    pub fn control_sock(&self) -> (r: String)
        ensures
            r@ == ws_file_spec(self.run@, self.ws@, "control.sock"@),
    {
        let mut s = self.ws_run_dir();
        s.append("/");
        s.append("control.sock");
        proof {
            assert(s@ =~= ws_file_spec(self.run@, self.ws@, "control.sock"@));
        }
        s
    }

    /// `<run>/<ws>/events.log`
    pub fn events_log(&self) -> (r: String)
        ensures
            r@ == ws_file_spec(self.run@, self.ws@, "events.log"@),
    {
        let mut s = self.ws_run_dir();
        s.append("/");
        s.append("events.log");
        proof {
            assert(s@ =~= ws_file_spec(self.run@, self.ws@, "events.log"@));
        }
        s
    }

    /// `<run>/<ws>/semantic.sqlite` (the workspace graph store)
    pub fn semantic_sqlite(&self) -> (r: String)
        ensures
            r@ == ws_file_spec(self.run@, self.ws@, "semantic.sqlite"@),
    {
        let mut s = self.ws_run_dir();
        s.append("/");
        s.append("semantic.sqlite");
        proof {
            assert(s@ =~= ws_file_spec(self.run@, self.ws@, "semantic.sqlite"@));
        }
        s
    }

    /// `<run>/<ws>/graph/` (the workspace graph directory)
    pub fn graph_dir(&self) -> (r: String)
        ensures
            r@ == ws_file_spec(self.run@, self.ws@, "graph"@),
    {
        let mut s = self.ws_run_dir();
        s.append("/");
        s.append("graph");
        proof {
            assert(s@ =~= ws_file_spec(self.run@, self.ws@, "graph"@));
        }
        s
    }
}

/// The canonical control socket under a run directory:
/// `<run_dir>/<ws>/control.sock`.
pub fn control_socket_path(run_dir: &str, ws: &str) -> (r: String)
    ensures
        r@ == ws_file_spec(run_dir@, ws@, "control.sock"@),
{
    let mut s = run_dir.to_owned();
    s.append("/");
    s.append(ws);
    s.append("/");
    s.append("control.sock");
    proof {
        assert(s@ =~= ws_file_spec(run_dir@, ws@, "control.sock"@));
    }
    s
}

} // verus!
