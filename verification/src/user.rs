//! The per-sandbox host-user backend's logic: user naming, `/etc/passwd`
//! parsing, and the command lines it hands to the privilege-escalation tool.
//!
//! Each environment becomes one host user named `cub-<env>`. The processes,
//! user databases and archives live outside this library; what stands here
//! is every decision and every string the backend computes: which user a
//! name maps to, which environments a password database lists, where a
//! user's home directory is, and the exact argument lists for creating,
//! killing and entering users.

use vstd::prelude::*;
use crate::names::EnvironmentName;
use crate::paths::HostPath;
use crate::text::{concat2, find_char, find_char_of, strip_prefix, u64_to_string};

verus! {

/// The host-user backend: its username prefix and where reset backups go.
#[derive(Debug)]
pub struct User {
    /// The prefix every sandbox user's name carries.
    pub username_prefix: String,
    /// Where reset flows park the work-tree backup archives.
    pub work_tars: HostPath,
}

/// The username for an environment: the prefix followed by the name.
pub open spec fn username_of(prefix: Seq<char>, env: Seq<char>) -> Seq<char> {
    prefix + env
}

/// The environment one password-database line names, if any: the part of
/// the username field before the first `:` must carry the prefix, and the
/// remainder must trim to a valid environment name.
pub open spec fn passwd_env_of(prefix: Seq<char>, line: Seq<char>) -> Option<Seq<char>> {
    let uname = match find_char_of(line, ':') {
        Some(i) => line.take(i),
        None => line,
    };
    if uname.len() >= prefix.len() && uname.take(prefix.len() as int) == prefix
        && crate::names::valid_name(crate::text::trim_of(uname.skip(prefix.len() as int))) {
        Some(crate::text::trim_of(uname.skip(prefix.len() as int)))
    } else {
        None
    }
}

/// The environments a password database lists, line by line, in order.
pub open spec fn passwd_envs_of(prefix: Seq<char>, lines: Seq<String>) -> Seq<Seq<char>>
    decreases lines.len(),
{
    if lines.len() == 0 {
        Seq::empty()
    } else {
        (match passwd_env_of(prefix, lines[0]@) {
            Some(e) => seq![e],
            None => Seq::<Seq<char>>::empty(),
        }) + passwd_envs_of(prefix, lines.drop_first())
    }
}

proof fn lemma_passwd_envs_push(prefix: Seq<char>, lines: Seq<String>, l: String)
    ensures
        passwd_envs_of(prefix, lines.push(l)) == passwd_envs_of(prefix, lines) + (
        match passwd_env_of(prefix, l@) {
            Some(e) => seq![e],
            None => Seq::<Seq<char>>::empty(),
        }),
    decreases lines.len(),
{
    if lines.len() == 0 {
        assert(lines.push(l)[0] == l);
        assert(lines.push(l).drop_first() =~= Seq::<String>::empty());
        assert(passwd_envs_of(prefix, Seq::<String>::empty()) =~= Seq::<Seq<char>>::empty());
        assert(passwd_envs_of(prefix, lines.push(l)) =~= passwd_envs_of(prefix, lines) + (
        match passwd_env_of(prefix, l@) {
            Some(e) => seq![e],
            None => Seq::<Seq<char>>::empty(),
        }));
    } else {
        assert(lines.push(l)[0] == lines[0]);
        assert(lines.push(l).drop_first() =~= lines.drop_first().push(l));
        lemma_passwd_envs_push(prefix, lines.drop_first(), l);
        assert(passwd_envs_of(prefix, lines.push(l)) =~= passwd_envs_of(prefix, lines) + (
        match passwd_env_of(prefix, l@) {
            Some(e) => seq![e],
            None => Seq::<Seq<char>>::empty(),
        }));
    }
}

/// The `:`-separated fields of a line; a line is always at least one field.
pub open spec fn colon_fields_of(s: Seq<char>) -> Seq<Seq<char>>
    decreases s.len(),
{
    match find_char_of(s, ':') {
        None => seq![s],
        Some(i) => if 0 <= i < s.len() {
            seq![s.take(i)] + colon_fields_of(s.skip(i + 1))
        } else {
            seq![s]
        },
    }
}

/// The `n`th `:`-separated field of a line, if the line has that many.
pub fn nth_colon_field<'a>(s: &'a str, n: usize) -> (r: Option<&'a str>)
    ensures
        r is Some <==> n < colon_fields_of(s@).len(),
        r matches Some(f) ==> f@ == colon_fields_of(s@)[n as int],
{
    let mut cur: &str = s;
    let mut k: usize = 0;
    while k < n
        invariant
            k <= n,
            colon_fields_of(s@).len() == k + colon_fields_of(cur@).len(),
            forall|j: int|
                0 <= j < colon_fields_of(cur@).len() ==> #[trigger] colon_fields_of(cur@)[j]
                    == colon_fields_of(s@)[k + j],
        decreases n - k,
    {
        match find_char(cur, ':') {
            None => {
                proof {
                    assert(colon_fields_of(cur@) =~= seq![cur@]);
                }
                return None;
            },
            Some(i) => {
                proof {
                    crate::text::lemma_find_char_of(cur@, ':');
                }
                let ghost old_cur = cur@;
                let len = cur.unicode_len();
                cur = cur.substring_char(i + 1, len);
                proof {
                    assert(cur@ =~= old_cur.skip(i + 1));
                    assert(colon_fields_of(old_cur) == seq![old_cur.take(i as int)]
                        + colon_fields_of(old_cur.skip(i + 1)));
                    assert(forall|j: int|
                        0 <= j < colon_fields_of(cur@).len() ==> #[trigger] colon_fields_of(
                            cur@,
                        )[j] == colon_fields_of(old_cur)[1 + j]);
                }
                k += 1;
            },
        }
    }
    match find_char(cur, ':') {
        None => {
            proof {
                assert(colon_fields_of(cur@) =~= seq![cur@]);
                assert(colon_fields_of(cur@)[0] == cur@);
                assert(colon_fields_of(s@)[n as int] == cur@);
            }
            Some(cur)
        },
        Some(i) => {
            proof {
                crate::text::lemma_find_char_of(cur@, ':');
                assert(colon_fields_of(cur@) == seq![cur@.take(i as int)] + colon_fields_of(
                    cur@.skip(i + 1),
                ));
                assert(colon_fields_of(cur@)[0] == cur@.take(i as int));
                assert(colon_fields_of(s@)[n as int] == cur@.take(i as int));
            }
            Some(cur.substring_char(0, i))
        },
    }
}

impl User {
    /// Creates the backend's state from the data directory it was handed.
    ///
    /// Backups go under `<data>/cubicle/work`.
    pub fn new(xdg_data_home: &HostPath) -> (r: User)
        ensures
            r.username_prefix@ == "cub-"@,
            r.work_tars@ == crate::paths::joined_path_of(
                crate::paths::joined_path_of(xdg_data_home@, "cubicle"@),
                "work"@,
            ),
    {
        User {
            username_prefix: String::from_str("cub-"),
            work_tars: xdg_data_home.join("cubicle").join("work"),
        }
    }

    /// The host user an environment maps to.
    pub fn username_from_environment(&self, env: &EnvironmentName) -> (r: String)
        ensures
            r@ == username_of(self.username_prefix@, env@),
    {
        concat2(self.username_prefix.as_str(), env.as_str())
    }

    /// The environments one password-database line contributes: the part of
    /// the username before the first `:` must carry the backend's prefix and
    /// the rest must be a valid environment name.
    pub fn environment_from_passwd_line<'a>(&self, line: &'a str) -> (r: Option<EnvironmentName>)
        ensures
            ({
                let uname = match find_char_of(line@, ':') {
                    Some(i) => line@.take(i),
                    None => line@,
                };
                let plen = self.username_prefix@.len() as int;
                &&& (r is Some <==> (uname.len() >= plen && uname.take(plen)
                    == self.username_prefix@ && crate::names::valid_name(
                    crate::text::trim_of(uname.skip(plen)),
                )))
                &&& (r matches Some(env) ==> env.wf() && env@ == crate::text::trim_of(
                    uname.skip(plen),
                ))
            }),
    {
        let username = match find_char(line, ':') {
            Some(i) => {
                proof {
                    crate::text::lemma_find_char_of(line@, ':');
                }
                line.substring_char(0, i)
            },
            None => line,
        };
        match strip_prefix(username, self.username_prefix.as_str()) {
            Some(rest) => match EnvironmentName::from_str(rest) {
                Ok(env) => Some(env),
                Err(_) => None,
            },
            None => None,
        }
    }

    /// The environments a whole password database lists: the lines'
    /// contributions, in order.
    pub fn environments_from_passwd(&self, lines: &Vec<String>) -> (r: Vec<EnvironmentName>)
        ensures
            crate::names::env_views_of(r@) == passwd_envs_of(self.username_prefix@, lines@),
            forall|k: int| 0 <= k < r@.len() ==> (#[trigger] r@[k]).wf(),
    {
        let mut out: Vec<EnvironmentName> = Vec::new();
        let mut i: usize = 0;
        proof {
            assert(lines@.take(0) =~= Seq::<String>::empty());
            assert(passwd_envs_of(self.username_prefix@, Seq::<String>::empty()) =~= Seq::<
                Seq<char>,
            >::empty());
        }
        while i < lines.len()
            invariant
                i <= lines@.len(),
                crate::names::env_views_of(out@) == passwd_envs_of(
                    self.username_prefix@,
                    lines@.take(i as int),
                ),
                forall|k: int| 0 <= k < out@.len() ==> (#[trigger] out@[k]).wf(),
            decreases lines@.len() - i,
        {
            let ghost old_out = out@;
            match self.environment_from_passwd_line(lines[i].as_str()) {
                Some(env) => {
                    proof {
                        assert(passwd_env_of(self.username_prefix@, lines@[i as int]@) == Some(
                            env@,
                        ));
                    }
                    out.push(env);
                },
                None => {
                    proof {
                        assert(passwd_env_of(self.username_prefix@, lines@[i as int]@) is None);
                    }
                },
            }
            proof {
                assert(lines@.take(i + 1) =~= lines@.take(i as int).push(lines@[i as int]));
                lemma_passwd_envs_push(
                    self.username_prefix@,
                    lines@.take(i as int),
                    lines@[i as int],
                );
                assert(crate::names::env_views_of(out@) =~= passwd_envs_of(
                    self.username_prefix@,
                    lines@.take(i + 1),
                ));
            }
            i += 1;
        }
        proof {
            assert(lines@.take(lines@.len() as int) =~= lines@);
        }
        out
    }

    /// The home directory a password-database line records for the user, if
    /// the line is the user's: the sixth `:`-separated field.
    pub fn home_from_passwd_line<'a>(&self, line: &'a str, username: &str) -> (r: Option<&'a str>)
        ensures
            r is Some <==> (colon_fields_of(line@).len() >= 6 && colon_fields_of(line@)[0]
                == username@),
            r matches Some(h) ==> h@ == colon_fields_of(line@)[5],
    {
        let name_part = match nth_colon_field(line, 0) {
            Some(f) => f,
            None => {
                proof {
                    assert(false);
                }
                return None;
            },
        };
        if !crate::text::str_equal(name_part, username) {
            return None;
        }
        nth_colon_field(line, 5)
    }

    /// The name of the backup archive a reset writes: the environment's name
    /// and a timestamp.
    pub fn work_backup_path(&self, env: &EnvironmentName, unix_time: u64) -> (r: HostPath)
        ensures
            r@ == crate::paths::joined_path_of(
                self.work_tars@,
                env@ + "-"@ + crate::text::dec_str_of(unix_time) + ".tar"@,
            ),
    {
        let stamp = u64_to_string(unix_time);
        let file = concat2(env.as_str(), "-");
        let file = file.concat(stamp.as_str());
        let file = file.concat(".tar");
        self.work_tars.join(file.as_str())
    }

    /// The argument list that creates the environment's user: `adduser` with
    /// no password, an explanatory comment, and the login shell.
    pub fn create_user_args(&self, username: &str, owner: &str, shell: &str) -> (r: Vec<String>)
        ensures
            r@.len() == 7,
            r@[0]@ == "adduser"@,
            r@[1]@ == "--disabled-password"@,
            r@[2]@ == "--gecos"@,
            r@[3]@ == "Cubicle environment for user "@ + owner@,
            r@[4]@ == "--shell"@,
            r@[5]@ == shell@,
            r@[6]@ == username@,
    {
        let mut out: Vec<String> = Vec::new();
        out.push(String::from_str("adduser"));
        out.push(String::from_str("--disabled-password"));
        out.push(String::from_str("--gecos"));
        out.push(concat2("Cubicle environment for user ", owner));
        out.push(String::from_str("--shell"));
        out.push(String::from_str(shell));
        out.push(String::from_str(username));
        out
    }

    /// The argument list that kills every process of the environment's user.
    pub fn kill_user_args(&self, username: &str) -> (r: Vec<String>)
        ensures
            r@.len() == 5,
            r@[0]@ == "pkill"@,
            r@[1]@ == "--signal"@,
            r@[2]@ == "KILL"@,
            r@[3]@ == "--uid"@,
            r@[4]@ == username@,
    {
        let mut out: Vec<String> = Vec::new();
        out.push(String::from_str("pkill"));
        out.push(String::from_str("--signal"));
        out.push(String::from_str("KILL"));
        out.push(String::from_str("--uid"));
        out.push(String::from_str(username));
        out
    }

    /// The argument list that removes the environment's user and its home.
    pub fn delete_user_args(&self, username: &str) -> (r: Vec<String>)
        ensures
            r@.len() == 3,
            r@[0]@ == "deluser"@,
            r@[1]@ == "--remove-home"@,
            r@[2]@ == username@,
    {
        let mut out: Vec<String> = Vec::new();
        out.push(String::from_str("deluser"));
        out.push(String::from_str("--remove-home"));
        out.push(String::from_str(username));
        out
    }

    /// The shell command an interactive session runs after logging in as
    /// the user: change into the work tree and hand over to the shell.
    pub fn interactive_command(&self, shell: &str) -> (r: String)
        ensures
            r@ == "cd w && exec "@ + shell@,
    {
        concat2("cd w && exec ", shell)
    }

    /// The shell command a non-interactive invocation runs: change into the
    /// work tree, then the joined command line.
    pub fn exec_command(&self, joined: &str) -> (r: String)
        ensures
            r@ == "cd w && "@ + joined@,
    {
        concat2("cd w && ", joined)
    }
}

/// Where a host-user reset stands: the protocol backs the work tree up,
/// tears the user down, recreates it, and restores the backup, keeping the
/// archive whenever anything after the backup fails.
#[derive(Clone, Copy, Debug, PartialEq, Eq, Structural)]
pub enum UserResetState {
    /// Nothing has happened yet.
    Start,
    /// The user's processes are gone; the work tree is not yet saved.
    Killed,
    /// The work tree is saved in the backup archive.
    BackedUp,
    /// The old user is removed; only the backup holds the work tree.
    Purged,
    /// A fresh user exists; the backup still holds the work tree.
    Recreated,
    /// The backup was restored into the fresh user; the archive is still
    /// on disk.
    Restored,
    /// The archive is deleted; the reset is complete.
    Done,
    /// A step after the backup failed; the archive is kept.
    FailedKeepBackup,
    /// A step before the backup failed; there is no archive to keep.
    FailedNoBackup,
}

/// What the caller must do next in a host-user reset.
#[derive(Clone, Copy, Debug, PartialEq, Eq, Structural)]
pub enum UserResetAction {
    /// Kill the user's processes.
    KillProcesses,
    /// Archive the work tree into the backup file.
    SaveWorkTree,
    /// Delete the user and its home.
    PurgeUser,
    /// Create the user afresh.
    CreateUser,
    /// Seed the fresh user from the backup archive and run the init script.
    RestoreFromBackup,
    /// Delete the backup archive; the reset is complete.
    DeleteBackup,
    /// Stop; report the error. When the state says so, the backup archive
    /// stays on disk and the report names it.
    Stop,
}

/// Whether a reset state still holds a backup archive that must not be
/// deleted silently.
pub open spec fn backup_live(s: UserResetState) -> bool {
    s == UserResetState::BackedUp || s == UserResetState::Purged || s
        == UserResetState::Recreated || s == UserResetState::Restored || s
        == UserResetState::FailedKeepBackup
}

impl User {
    /// One step of the host-user reset protocol: given where the reset
    /// stands and whether the step the caller just ran succeeded, decide
    /// the next action and the new state.
    ///
    /// The work tree is saved before the user is purged; any failure after
    /// the backup exists ends in a state that keeps the archive; and only a
    /// fully restored reset deletes it.
    pub fn reset_step(&self, prior: UserResetState, step_succeeded: bool) -> (r: (
        UserResetAction,
        UserResetState,
    ))
        ensures
            prior == UserResetState::Start ==> r == (
                UserResetAction::KillProcesses,
                UserResetState::Start,
            ),
            (prior == UserResetState::Start && !step_succeeded) ==> r.1
                == UserResetState::Start,
            prior == UserResetState::Killed ==> r == (
                UserResetAction::SaveWorkTree,
                UserResetState::Killed,
            ),
            (prior == UserResetState::BackedUp && step_succeeded) ==> r == (
                UserResetAction::PurgeUser,
                UserResetState::BackedUp,
            ),
            (prior == UserResetState::Purged && step_succeeded) ==> r == (
                UserResetAction::CreateUser,
                UserResetState::Purged,
            ),
            (prior == UserResetState::Recreated && step_succeeded) ==> r == (
                UserResetAction::RestoreFromBackup,
                UserResetState::Recreated,
            ),
            (prior == UserResetState::Restored && step_succeeded) ==> r == (
                UserResetAction::DeleteBackup,
                UserResetState::Done,
            ),
            r.0 == UserResetAction::PurgeUser ==> prior == UserResetState::BackedUp,
            r.0 == UserResetAction::RestoreFromBackup ==> prior == UserResetState::Recreated
                && step_succeeded,
            r.0 == UserResetAction::DeleteBackup ==> prior == UserResetState::Restored
                && step_succeeded,
            (backup_live(prior) && !step_succeeded) ==> r == (
                UserResetAction::Stop,
                UserResetState::FailedKeepBackup,
            ),
            backup_live(r.1) ==> r.1 != UserResetState::Done,
            r.1 == UserResetState::Done ==> (prior == UserResetState::Restored
                && step_succeeded) || prior == UserResetState::Done,
    {
        match prior {
            UserResetState::Start => (UserResetAction::KillProcesses, UserResetState::Start),
            UserResetState::Killed => (UserResetAction::SaveWorkTree, UserResetState::Killed),
            UserResetState::BackedUp => {
                if step_succeeded {
                    (UserResetAction::PurgeUser, UserResetState::BackedUp)
                } else {
                    (UserResetAction::Stop, UserResetState::FailedKeepBackup)
                }
            },
            UserResetState::Purged => {
                if step_succeeded {
                    (UserResetAction::CreateUser, UserResetState::Purged)
                } else {
                    (UserResetAction::Stop, UserResetState::FailedKeepBackup)
                }
            },
            UserResetState::Recreated => {
                if step_succeeded {
                    (UserResetAction::RestoreFromBackup, UserResetState::Recreated)
                } else {
                    (UserResetAction::Stop, UserResetState::FailedKeepBackup)
                }
            },
            UserResetState::Restored => {
                if step_succeeded {
                    (UserResetAction::DeleteBackup, UserResetState::Done)
                } else {
                    (UserResetAction::Stop, UserResetState::FailedKeepBackup)
                }
            },
            UserResetState::Done => (UserResetAction::Stop, UserResetState::Done),
            UserResetState::FailedKeepBackup => (
                UserResetAction::Stop,
                UserResetState::FailedKeepBackup,
            ),
            UserResetState::FailedNoBackup => (
                UserResetAction::Stop,
                UserResetState::FailedNoBackup,
            ),
        }
    }

    /// The tri-state a passwd probe yields for one environment: a name not
    /// in the passwd listing has no environment; a listed name whose account
    /// the system still resolves fully exists; a listed name without a
    /// resolvable account is broken.
    pub fn exists_from_probe(&self, listed: bool, account_resolves: bool) -> (r: crate::EnvironmentExists)
        ensures
            r == (if !listed {
                crate::EnvironmentExists::NoEnvironment
            } else if account_resolves {
                crate::EnvironmentExists::FullyExists
            } else {
                crate::EnvironmentExists::PartiallyExists
            }),
    {
        if !listed {
            crate::EnvironmentExists::NoEnvironment
        } else if account_resolves {
            crate::EnvironmentExists::FullyExists
        } else {
            crate::EnvironmentExists::PartiallyExists
        }
    }

    /// The error a reset that failed after the backup was taken reports:
    /// it names the archive that was kept, so the work tree is recoverable.
    pub fn reset_failure_error(&self, env: &EnvironmentName, unix_time: u64) -> (r:
        crate::error::Error)
        ensures
            r.kind == crate::error::ErrorKind::Subprocess,
            r.message@ == "failed to reset environment; backup of work tree kept at "@
                + crate::paths::joined_path_of(
                self.work_tars@,
                env@ + "-"@ + crate::text::dec_str_of(unix_time) + ".tar"@,
            ),
            r.context@.len() == 0,
    {
        let path = self.work_backup_path(env, unix_time);
        let message = concat2(
            "failed to reset environment; backup of work tree kept at ",
            path.as_str(),
        );
        crate::error::Error::new(crate::error::ErrorKind::Subprocess, message)
    }

    /// How the caller advances the protocol after performing an action:
    /// the state the just-performed step leads to.
    pub fn reset_advance(&self, prior: UserResetState, action: UserResetAction, succeeded: bool)
        -> (r: UserResetState)
        ensures
            (action == UserResetAction::SaveWorkTree && succeeded) ==> r
                == UserResetState::BackedUp,
            (action == UserResetAction::SaveWorkTree && !succeeded) ==> r
                == UserResetState::FailedNoBackup,
            (action == UserResetAction::KillProcesses && succeeded) ==> r
                == UserResetState::Killed,
            (action == UserResetAction::PurgeUser && succeeded) ==> r == UserResetState::Purged,
            (action == UserResetAction::CreateUser && succeeded) ==> r
                == UserResetState::Recreated,
            (action == UserResetAction::RestoreFromBackup && succeeded) ==> r
                == UserResetState::Restored,
            ((action == UserResetAction::PurgeUser || action == UserResetAction::CreateUser
                || action == UserResetAction::RestoreFromBackup || action
                == UserResetAction::DeleteBackup) && !succeeded) ==> r
                == UserResetState::FailedKeepBackup,
            (action == UserResetAction::DeleteBackup && succeeded) ==> r == UserResetState::Done,
    {
        match action {
            UserResetAction::KillProcesses => {
                if succeeded {
                    UserResetState::Killed
                } else if prior == UserResetState::BackedUp || prior == UserResetState::Purged
                    || prior == UserResetState::Recreated || prior
                    == UserResetState::FailedKeepBackup {
                    UserResetState::FailedKeepBackup
                } else {
                    UserResetState::FailedNoBackup
                }
            },
            UserResetAction::SaveWorkTree => {
                if succeeded {
                    UserResetState::BackedUp
                } else {
                    UserResetState::FailedNoBackup
                }
            },
            UserResetAction::PurgeUser => {
                if succeeded {
                    UserResetState::Purged
                } else {
                    UserResetState::FailedKeepBackup
                }
            },
            UserResetAction::CreateUser => {
                if succeeded {
                    UserResetState::Recreated
                } else {
                    UserResetState::FailedKeepBackup
                }
            },
            UserResetAction::RestoreFromBackup => {
                if succeeded {
                    UserResetState::Restored
                } else {
                    UserResetState::FailedKeepBackup
                }
            },
            UserResetAction::DeleteBackup => {
                if succeeded {
                    UserResetState::Done
                } else {
                    UserResetState::FailedKeepBackup
                }
            },
            UserResetAction::Stop => prior,
        }
    }
}

} // verus!
