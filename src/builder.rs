use vstd::prelude::*;
use crate::order::{name_lt, name_less, lemma_name_lt_irreflexive, lemma_name_lt_asymmetric, lemma_name_lt_transitive, lemma_name_lt_total};
use crate::render::{ShellStyle, quote_word, assignment, env_prefix, args_suffix, rendered};

verus! {

/// An environment overlay entry: a variable name and either a value or an
/// explicit "unset" marker (`None`).
pub type EnvEntry = (String, Option<String>);

/// The mathematical form of an overlay entry.
pub type EnvEntryView = (Seq<char>, Option<Seq<char>>);

pub open spec fn opt_str_view(o: Option<String>) -> Option<Seq<char>> {
    match o {
        Some(s) => Some(s@),
        None => None,
    }
}

/// The texts of a list of strings.
pub open spec fn strs_view(s: Seq<&str>) -> Seq<Seq<char>> {
    s.map_values(|a: &str| a@)
}

pub open spec fn strings_view(s: Seq<String>) -> Seq<Seq<char>> {
    s.map_values(|a: String| a@)
}

pub open spec fn entry_view(e: EnvEntry) -> EnvEntryView {
    (e.0@, opt_str_view(e.1))
}

/// The overlay holds `k`.
pub open spec fn has_key(env: Seq<EnvEntryView>, k: Seq<char>) -> bool {
    exists|i: int| 0 <= i < env.len() && #[trigger] env[i].0 == k
}

/// The position of `k` in the overlay (meaningful only where `has_key`).
pub open spec fn key_index(env: Seq<EnvEntryView>, k: Seq<char>) -> int {
    choose|i: int| 0 <= i < env.len() && #[trigger] env[i].0 == k
}

/// No name occurs twice in the overlay.
pub open spec fn keys_unique(env: Seq<EnvEntryView>) -> bool {
    forall|i: int, j: int|
        0 <= i < env.len() && 0 <= j < env.len() && i != j ==> #[trigger] env[i].0 != #[trigger] env[j].0
}

/// The overlay lists its names in increasing order (so none twice).
pub open spec fn keys_sorted(env: Seq<EnvEntryView>) -> bool {
    forall|i: int, j: int| 0 <= i < j < env.len() ==> name_lt(#[trigger] env[i].0, #[trigger] env[j].0)
}

/// `i` is where `k` belongs among the names of `env`: every name before
/// it is smaller, every name from it on is larger.
pub open spec fn is_insert_pos(env: Seq<EnvEntryView>, k: Seq<char>, i: int) -> bool {
    &&& 0 <= i <= env.len()
    &&& forall|j: int| 0 <= j < i ==> name_lt(#[trigger] env[j].0, k)
    &&& forall|j: int| i <= j < env.len() ==> name_lt(k, #[trigger] env[j].0)
}

/// Where a new name `k` goes (meaningful where the overlay is sorted and
/// does not hold `k`).
pub open spec fn insert_pos(env: Seq<EnvEntryView>, k: Seq<char>) -> int {
    choose|i: int| is_insert_pos(env, k, i)
}

/// Setting `k` to `val` (a value, or `None` for "unset"): an existing entry is
/// replaced where it stands, a new one goes where its name belongs.
pub open spec fn overlay_set(
    env: Seq<EnvEntryView>,
    k: Seq<char>,
    val: Option<Seq<char>>,
) -> Seq<EnvEntryView> {
    if has_key(env, k) {
        env.update(key_index(env, k), (k, val))
    } else {
        env.insert(insert_pos(env, k), (k, val))
    }
}

/// What the overlay says of `k`: `None` when it says nothing, `Some(None)`
/// when it unsets `k`, `Some(Some(v))` when it sets `k` to `v`.
pub open spec fn overlay_get(env: Seq<EnvEntryView>, k: Seq<char>) -> Option<Option<Seq<char>>> {
    if has_key(env, k) {
        Some(env[key_index(env, k)].1)
    } else {
        None
    }
}

/// The value of `k` that the process will see, given what it would inherit:
/// the overlay decides where it names `k`, and an unset entry always wins.
pub open spec fn resolved_env(
    env: Seq<EnvEntryView>,
    k: Seq<char>,
    inherited: Option<Seq<char>>,
) -> Option<Seq<char>> {
    match overlay_get(env, k) {
        Some(v) => v,
        None => inherited,
    }
}

pub proof fn lemma_key_index(env: Seq<EnvEntryView>, k: Seq<char>, i: int)
    requires
        keys_unique(env),
        0 <= i < env.len(),
        env[i].0 == k,
    ensures
        has_key(env, k),
        key_index(env, k) == i,
{
    assert(env[i].0 == k);
}

pub proof fn lemma_sorted_unique(env: Seq<EnvEntryView>)
    requires
        keys_sorted(env),
    ensures
        keys_unique(env),
{
    assert forall|i: int, j: int|
        0 <= i < env.len() && 0 <= j < env.len() && i != j implies #[trigger] env[i].0 != #[trigger] env[j].0 by {
        if i < j {
            assert(name_lt(env[i].0, env[j].0));
        } else {
            assert(name_lt(env[j].0, env[i].0));
        }
        lemma_name_lt_irreflexive(env[i].0);
    }
}

pub proof fn lemma_insert_pos_exists(env: Seq<EnvEntryView>, k: Seq<char>)
    requires
        keys_sorted(env),
        !has_key(env, k),
    ensures
        exists|i: int| is_insert_pos(env, k, i),
    decreases env.len(),
{
    if env.len() == 0 {
        assert(is_insert_pos(env, k, 0));
    } else {
        let p = env.drop_last();
        let n = env.len() - 1;
        assert(!has_key(p, k)) by {
            if has_key(p, k) {
                let j = choose|j: int| 0 <= j < p.len() && #[trigger] p[j].0 == k;
                assert(env[j].0 == k);
            }
        }
        lemma_insert_pos_exists(p, k);
        let i = choose|i: int| is_insert_pos(p, k, i);
        assert(env[n].0 != k);
        lemma_name_lt_total(env[n].0, k);
        if name_lt(env[n].0, k) {
            assert forall|j: int| 0 <= j < env.len() implies name_lt(#[trigger] env[j].0, k) by {
                if j < n {
                    lemma_name_lt_transitive(env[j].0, env[n].0, k);
                }
            }
            assert(is_insert_pos(env, k, env.len() as int));
        } else {
            assert forall|j: int| 0 <= j < i implies name_lt(#[trigger] env[j].0, k) by {
                assert(env[j] == p[j]);
            }
            assert forall|j: int| i <= j < env.len() implies name_lt(k, #[trigger] env[j].0) by {
                if j < n {
                    assert(env[j] == p[j]);
                }
            }
            assert(is_insert_pos(env, k, i));
        }
    }
}

pub proof fn lemma_insert_pos_unique(env: Seq<EnvEntryView>, k: Seq<char>, i: int)
    requires
        is_insert_pos(env, k, i),
    ensures
        insert_pos(env, k) == i,
{
    let q = insert_pos(env, k);
    if q != i {
        let m = if q < i { q } else { i };
        assert(name_lt(env[m].0, k));
        assert(name_lt(k, env[m].0));
        lemma_name_lt_asymmetric(env[m].0, k);
    }
}

pub proof fn lemma_overlay_set_sorted(env: Seq<EnvEntryView>, k: Seq<char>, val: Option<Seq<char>>)
    requires
        keys_sorted(env),
    ensures
        keys_sorted(overlay_set(env, k, val)),
        overlay_get(overlay_set(env, k, val), k) == Some(val),
{
    let e2 = overlay_set(env, k, val);
    lemma_sorted_unique(env);
    if has_key(env, k) {
        let i = key_index(env, k);
        assert(e2[i].0 == k);
        assert forall|a: int, b: int| 0 <= a < b < e2.len() implies name_lt(#[trigger] e2[a].0, #[trigger] e2[b].0) by {
            assert(e2[a].0 == env[a].0);
            assert(e2[b].0 == env[b].0);
        }
        lemma_sorted_unique(e2);
        lemma_key_index(e2, k, i);
    } else {
        lemma_insert_pos_exists(env, k);
        let p = insert_pos(env, k);
        assert(is_insert_pos(env, k, p));
        assert forall|a: int, b: int| 0 <= a < b < e2.len() implies name_lt(#[trigger] e2[a].0, #[trigger] e2[b].0) by {
            if b < p {
                assert(e2[a] == env[a] && e2[b] == env[b]);
            } else if b == p {
                assert(e2[a] == env[a]);
            } else if a < p {
                assert(e2[a] == env[a] && e2[b] == env[b - 1]);
                lemma_name_lt_transitive(env[a].0, k, env[b - 1].0);
            } else if a == p {
                assert(e2[b] == env[b - 1]);
            } else {
                assert(e2[a] == env[a - 1] && e2[b] == env[b - 1]);
            }
        }
        assert(e2[p].0 == k);
        lemma_sorted_unique(e2);
        lemma_key_index(e2, k, p);
    }
}

/// One edit of an argument list: append one, append several, or replace
/// the whole list.
pub enum ArgEdit {
    One(Seq<char>),
    Many(Seq<Seq<char>>),
    Replace(Seq<Seq<char>>),
}

pub open spec fn apply_arg_edit(args: Seq<Seq<char>>, e: ArgEdit) -> Seq<Seq<char>> {
    match e {
        ArgEdit::One(a) => args.push(a),
        ArgEdit::Many(xs) => args + xs,
        ArgEdit::Replace(xs) => xs,
    }
}

/// The argument list after the edits `es`, in order.
pub open spec fn apply_arg_edits(args: Seq<Seq<char>>, es: Seq<ArgEdit>) -> Seq<Seq<char>>
    decreases es.len(),
{
    if es.len() == 0 {
        args
    } else {
        apply_arg_edit(apply_arg_edits(args, es.drop_last()), es.last())
    }
}

/// The arguments that an edit names.
pub open spec fn edit_items(e: ArgEdit) -> Seq<Seq<char>> {
    match e {
        ArgEdit::One(a) => seq![a],
        ArgEdit::Many(xs) => xs,
        ArgEdit::Replace(xs) => xs,
    }
}

/// The arguments that the edits name, in order.
pub open spec fn edits_items(es: Seq<ArgEdit>) -> Seq<Seq<char>>
    decreases es.len(),
{
    if es.len() == 0 {
        Seq::empty()
    } else {
        edits_items(es.drop_last()) + edit_items(es.last())
    }
}

/// Appending arguments, one or several at a time, gives the arguments that
/// were there followed by all the appended ones, in call order.
pub proof fn lemma_appends_concatenate(args: Seq<Seq<char>>, es: Seq<ArgEdit>)
    requires
        forall|i: int| 0 <= i < es.len() ==> !(#[trigger] es[i] is Replace),
    ensures
        apply_arg_edits(args, es) == args + edits_items(es),
    decreases es.len(),
{
    if es.len() > 0 {
        let init = es.drop_last();
        assert forall|i: int| 0 <= i < init.len() implies !(#[trigger] init[i] is Replace) by {
            assert(init[i] == es[i]);
        }
        lemma_appends_concatenate(args, init);
        assert(!(es[es.len() - 1] is Replace));
        match es.last() {
            ArgEdit::One(a) => {
                assert(args + edits_items(init) + seq![a] =~= (args + edits_items(init)).push(a));
            },
            ArgEdit::Many(xs) => {
                assert(args + edits_items(init) + xs =~= args + (edits_items(init) + xs));
            },
            ArgEdit::Replace(xs) => {},
        }
        assert(args + edits_items(init) + edit_items(es.last()) =~= args + edits_items(es));
    }
}

/// Replacing the arguments discards every earlier edit: what follows starts
/// from the replacement alone.
pub proof fn lemma_replace_discards(args: Seq<Seq<char>>, es: Seq<ArgEdit>, xs: Seq<Seq<char>>, rest: Seq<ArgEdit>)
    ensures
        apply_arg_edits(args, es.push(ArgEdit::Replace(xs)) + rest) == apply_arg_edits(xs, rest),
    decreases rest.len(),
{
    let pre = es.push(ArgEdit::Replace(xs));
    if rest.len() == 0 {
        assert(pre + rest =~= pre);
        assert(pre.drop_last() =~= es);
    } else {
        lemma_replace_discards(args, es, xs, rest.drop_last());
        assert((pre + rest).drop_last() =~= pre + rest.drop_last());
    }
}

/// After `k` is unset, the process does not see `k`, whatever the overlay
/// held before and whatever it would inherit.
pub proof fn lemma_unset_hides(env: Seq<EnvEntryView>, k: Seq<char>, inherited: Option<Seq<char>>)
    requires
        keys_sorted(env),
    ensures
        resolved_env(overlay_set(env, k, None), k, inherited) is None,
{
    lemma_overlay_set_sorted(env, k, None);
}

/// Setting `k` and then unsetting it leaves `k` unseen: never the value that
/// was set, and never an inherited one.
pub proof fn lemma_set_then_unset(
    env: Seq<EnvEntryView>,
    k: Seq<char>,
    v: Seq<char>,
    inherited: Option<Seq<char>>,
)
    requires
        keys_sorted(env),
    ensures
        resolved_env(overlay_set(overlay_set(env, k, Some(v)), k, None), k, inherited) is None,
{
    lemma_overlay_set_sorted(env, k, Some(v));
    lemma_unset_hides(overlay_set(env, k, Some(v)), k, inherited);
}

/// The jobserver handle of the `jobserver` crate, carried through opaquely.
#[verifier::external_type_specification]
#[verifier::external_body]
pub struct ExClient(jobserver::Client);

/// Relies on `jobserver::Client::clone` (derived over an `Arc`): the clone
/// shares the same token pool; nothing about it is stated here.
pub assume_specification[ <jobserver::Client as Clone>::clone ](c: &jobserver::Client) -> jobserver::Client;

/// Compares two strings of equal length character by character.
fn str_eq(a: &str, b: &str) -> (r: bool)
    requires
        a@.len() == b@.len(),
    ensures
        r == (a@ == b@),
{
    let n = a.unicode_len();
    let mut i: usize = 0;
    while i < n
        invariant
            n == a@.len() == b@.len(),
            0 <= i <= n,
            a@.subrange(0, i as int) == b@.subrange(0, i as int),
        decreases n - i,
    {
        if a.get_char(i) != b.get_char(i) {
            return false;
        }
        proof {
            assert(a@.subrange(0, i + 1) =~= a@.subrange(0, i as int).push(a@[i as int]));
            assert(b@.subrange(0, i + 1) =~= b@.subrange(0, i as int).push(b@[i as int]));
        }
        i = i + 1;
    }
    proof {
        assert(a@ =~= a@.subrange(0, n as int));
        assert(b@ =~= b@.subrange(0, n as int));
    }
    true
}

/// A builder for an external process: the program, its arguments, an
/// environment overlay, a working directory, an optional jobserver handle
/// and whether rendering shows the environment.
#[derive(Debug)]
pub struct ProcessBuilder {
    program: String,
    args: Vec<String>,
    env: Vec<EnvEntry>,
    cwd: Option<String>,
    jobserver: Option<jobserver::Client>,
    display_env_vars: bool,
}

impl Clone for ProcessBuilder {
    /// A copy of the builder; a jobserver handle is shared, not duplicated.
    fn clone(&self) -> (r: Self)
        ensures
            r@ == self@,
    {
        let mut args: Vec<String> = Vec::new();
        let mut i: usize = 0;
        while i < self.args.len()
            invariant
                0 <= i <= self.args@.len(),
                strings_view(args@) == strings_view(self.args@.subrange(0, i as int)),
            decreases self.args@.len() - i,
        {
            let ghost prev = args@;
            args.push(self.args[i].clone());
            proof {
                assert(strings_view(args@) =~= strings_view(prev).push(self.args@[i as int]@));
                assert(strings_view(self.args@.subrange(0, i + 1)) =~= strings_view(
                    self.args@.subrange(0, i as int),
                ).push(self.args@[i as int]@));
            }
            i = i + 1;
        }
        let mut env: Vec<EnvEntry> = Vec::new();
        let mut j: usize = 0;
        while j < self.env.len()
            invariant
                0 <= j <= self.env@.len(),
                env@.map_values(|e: EnvEntry| entry_view(e)) == self.env@.subrange(0, j as int).map_values(
                    |e: EnvEntry| entry_view(e),
                ),
            decreases self.env@.len() - j,
        {
            let ghost prev = env@;
            let val = match &self.env[j].1 {
                Some(v) => Some(v.clone()),
                None => None,
            };
            env.push((self.env[j].0.clone(), val));
            proof {
                assert(env@.map_values(|e: EnvEntry| entry_view(e)) =~= prev.map_values(
                    |e: EnvEntry| entry_view(e),
                ).push(entry_view(self.env@[j as int])));
                assert(self.env@.subrange(0, j + 1).map_values(|e: EnvEntry| entry_view(e))
                    =~= self.env@.subrange(0, j as int).map_values(|e: EnvEntry| entry_view(e)).push(
                    entry_view(self.env@[j as int]),
                ));
            }
            j = j + 1;
        }
        proof {
            assert(self.args@.subrange(0, i as int) =~= self.args@);
            assert(self.env@.subrange(0, j as int) =~= self.env@);
        }
        let cwd = match &self.cwd {
            Some(c) => Some(c.clone()),
            None => None,
        };
        let jobserver = match &self.jobserver {
            Some(c) => Some(c.clone()),
            None => None,
        };
        ProcessBuilder {
            program: self.program.clone(),
            args,
            env,
            cwd,
            jobserver,
            display_env_vars: self.display_env_vars,
        }
    }
}

/// The mathematical form of a [`ProcessBuilder`].
pub struct CommandView {
    pub program: Seq<char>,
    pub args: Seq<Seq<char>>,
    pub env: Seq<EnvEntryView>,
    pub cwd: Option<Seq<char>>,
    pub has_jobserver: bool,
    pub display_env_vars: bool,
}

impl View for ProcessBuilder {
    type V = CommandView;

    closed spec fn view(&self) -> CommandView {
        CommandView {
            program: self.program@,
            args: strings_view(self.args@),
            env: self.env@.map_values(|e: EnvEntry| entry_view(e)),
            cwd: opt_str_view(self.cwd),
            has_jobserver: self.jobserver.is_some(),
            display_env_vars: self.display_env_vars,
        }
    }
}

/// Creates a builder that runs `cmd` with no arguments and an empty overlay.
pub fn process(cmd: &str) -> (r: ProcessBuilder)
    ensures
        r@.program == cmd@,
        r@.args == Seq::<Seq<char>>::empty(),
        r@.env == Seq::<EnvEntryView>::empty(),
        r@.cwd == None::<Seq<char>>,
        !r@.has_jobserver,
        !r@.display_env_vars,
        r.wf(),
{
    let r = ProcessBuilder {
        program: cmd.to_owned(),
        args: Vec::new(),
        env: Vec::new(),
        cwd: None,
        jobserver: None,
        display_env_vars: false,
    };
    proof {
        assert(r@.args =~= Seq::<Seq<char>>::empty());
        assert(r@.env =~= Seq::<EnvEntryView>::empty());
    }
    r
}

impl ProcessBuilder {
    /// The overlay lists its names in increasing order, none twice.
    pub open spec fn wf(&self) -> bool {
        keys_sorted(self@.env)
    }

    /// Sets the program to run.
    pub fn program(&mut self, program: &str) -> (r: &mut ProcessBuilder)
        ensures
            r@ == (CommandView { program: program@, ..old(self)@ }),
            *final(self) == *final(r),
    {
        self.program = program.to_owned();
        self
    }

    /// Appends one argument.
    pub fn arg(&mut self, arg: &str) -> (r: &mut ProcessBuilder)
        ensures
            r@ == (CommandView { args: apply_arg_edit(old(self)@.args, ArgEdit::One(arg@)), ..old(self)@ }),
            *final(self) == *final(r),
    {
        self.args.push(arg.to_owned());
        proof {
            assert(self@.args =~= old(self)@.args.push(arg@));
        }
        self
    }

    /// Appends several arguments, in order.
    pub fn args(&mut self, args: &[&str]) -> (r: &mut ProcessBuilder)
        ensures
            r@ == (CommandView {
                args: apply_arg_edit(old(self)@.args, ArgEdit::Many(strs_view(args@))),
                ..old(self)@
            }),
            *final(self) == *final(r),
    {
        let mut i: usize = 0;
        while i < args.len()
            invariant
                0 <= i <= args@.len(),
                self@ == (CommandView {
                    args: old(self)@.args + strs_view(args@.subrange(0, i as int)),
                    ..old(self)@
                }),
            decreases args@.len() - i,
        {
            let ghost prev = self.args@;
            self.args.push(args[i].to_owned());
            proof {
                assert(strings_view(self.args@) =~= strings_view(prev).push(args@[i as int]@));
                assert(strs_view(args@.subrange(0, i + 1))
                    =~= strs_view(args@.subrange(0, i as int)).push(args@[i as int]@));
                assert(self@.args =~= old(self)@.args + strs_view(args@.subrange(0, i + 1)));
            }
            i = i + 1;
        }
        proof {
            assert(args@.subrange(0, i as int) =~= args@);
        }
        self
    }

    /// Replaces the whole argument list.
    pub fn args_replace(&mut self, args: &[&str]) -> (r: &mut ProcessBuilder)
        ensures
            r@ == (CommandView {
                args: apply_arg_edit(old(self)@.args, ArgEdit::Replace(strs_view(args@))),
                ..old(self)@
            }),
            *final(self) == *final(r),
    {
        self.args = Vec::new();
        proof {
            assert(self@.args =~= Seq::<Seq<char>>::empty());
            assert(self@.args + strs_view(args@) =~= strs_view(args@));
        }
        self.args(args)
    }

    /// Sets the working directory.
    pub fn cwd(&mut self, path: &str) -> (r: &mut ProcessBuilder)
        ensures
            r@ == (CommandView { cwd: Some(path@), ..old(self)@ }),
            *final(self) == *final(r),
    {
        self.cwd = Some(path.to_owned());
        self
    }

    /// Writes `val` for `key` into the overlay: a value, or `None` to unset.
    fn set_env_entry(&mut self, key: &str, val: Option<String>)
        requires
            old(self).wf(),
        ensures
            final(self)@ == (CommandView {
                env: overlay_set(old(self)@.env, key@, opt_str_view(val)),
                ..old(self)@
            }),
            final(self).wf(),
    {
        let ghost env0 = self@.env;
        let mut i: usize = 0;
        while i < self.env.len() && name_less(self.env[i].0.as_str(), key)
            invariant
                0 <= i <= self.env@.len(),
                self@ == old(self)@,
                self@.env == env0,
                keys_sorted(env0),
                forall|j: int| 0 <= j < i ==> name_lt(#[trigger] env0[j].0, key@),
            decreases self.env@.len() - i,
        {
            i = i + 1;
        }
        proof {
            lemma_sorted_unique(env0);
            lemma_overlay_set_sorted(env0, key@, opt_str_view(val));
        }
        if i < self.env.len() && self.env[i].0.as_str().unicode_len() == key.unicode_len() && str_eq(
            self.env[i].0.as_str(),
            key,
        ) {
            proof {
                lemma_key_index(env0, key@, i as int);
            }
            self.env.set(i, (key.to_owned(), val));
            proof {
                assert(self@.env =~= env0.update(i as int, (key@, opt_str_view(val))));
            }
        } else {
            proof {
                assert forall|j: int| i <= j < env0.len() implies name_lt(key@, #[trigger] env0[j].0) by {
                    assert(env0[i as int].0 != key@);
                    assert(!name_lt(env0[i as int].0, key@));
                    lemma_name_lt_total(env0[i as int].0, key@);
                    if j > i {
                        assert(name_lt(env0[i as int].0, env0[j].0));
                        lemma_name_lt_transitive(key@, env0[i as int].0, env0[j].0);
                    }
                }
                assert(!has_key(env0, key@)) by {
                    if has_key(env0, key@) {
                        let j = choose|j: int| 0 <= j < env0.len() && #[trigger] env0[j].0 == key@;
                        if j < i {
                            lemma_name_lt_irreflexive(key@);
                        } else {
                            lemma_name_lt_irreflexive(key@);
                        }
                    }
                }
                assert(is_insert_pos(env0, key@, i as int));
                lemma_insert_pos_unique(env0, key@, i as int);
            }
            self.env.insert(i, (key.to_owned(), val));
            proof {
                assert(self@.env =~= env0.insert(i as int, (key@, opt_str_view(val))));
            }
        }
    }
}


impl ProcessBuilder {
    /// Sets `key` to `val` in the overlay; a later write to the same name wins.
    pub fn env(&mut self, key: &str, val: &str) -> (r: &mut ProcessBuilder)
        requires
            old(self).wf(),
        ensures
            r@ == (CommandView { env: overlay_set(old(self)@.env, key@, Some(val@)), ..old(self)@ }),
            r.wf(),
            *final(self) == *final(r),
    {
        self.set_env_entry(key, Some(val.to_owned()));
        self
    }

    /// Marks `key` as unset: the process will not see it, whatever it would
    /// otherwise inherit.
    pub fn env_remove(&mut self, key: &str) -> (r: &mut ProcessBuilder)
        requires
            old(self).wf(),
        ensures
            r@ == (CommandView { env: overlay_set(old(self)@.env, key@, None), ..old(self)@ }),
            r.wf(),
            *final(self) == *final(r),
    {
        self.set_env_entry(key, None);
        self
    }

    /// The program to run.
    pub fn get_program(&self) -> (r: &String)
        ensures
            r@ == self@.program,
    {
        &self.program
    }

    /// The arguments, in order.
    pub fn get_args(&self) -> (r: &Vec<String>)
        ensures
            strings_view(r@) == self@.args,
    {
        &self.args
    }

    /// The working directory, if one was set.
    pub fn get_cwd(&self) -> (r: Option<&str>)
        ensures
            match r {
                Some(c) => self@.cwd == Some(c@),
                None => self@.cwd is None,
            },
    {
        match &self.cwd {
            Some(c) => Some(c.as_str()),
            None => None,
        }
    }

    /// The entries that the overlay sets or unsets, in increasing order of
    /// their names (inherited variables are not listed).
    pub fn get_envs(&self) -> (r: &Vec<EnvEntry>)
        ensures
            r@.map_values(|e: EnvEntry| entry_view(e)) == self@.env,
    {
        &self.env
    }

    /// The value of `var` as the process will see it, where `inherited` is
    /// what it would inherit from the calling process: the overlay decides
    /// where it names `var`, and an unset entry yields `None`.
    pub fn get_env(&self, var: &str, inherited: Option<String>) -> (r: Option<String>)
        requires
            self.wf(),
        ensures
            opt_str_view(r) == resolved_env(self@.env, var@, opt_str_view(inherited)),
    {
        let ghost env0 = self@.env;
        proof {
            lemma_sorted_unique(env0);
        }
        let mut i: usize = 0;
        while i < self.env.len()
            invariant
                0 <= i <= self.env@.len(),
                self@.env == env0,
                keys_unique(env0),
                forall|j: int| 0 <= j < i ==> #[trigger] env0[j].0 != var@,
            decreases self.env@.len() - i,
        {
            if self.env[i].0.as_str().unicode_len() == var.unicode_len()
                && str_eq(self.env[i].0.as_str(), var) {
                proof {
                    lemma_key_index(env0, var@, i as int);
                }
                return self.env[i].1.clone();
            }
            i = i + 1;
        }
        proof {
            assert(!has_key(env0, var@)) by {
                if has_key(env0, var@) {
                    let j = choose|j: int| 0 <= j < env0.len() && #[trigger] env0[j].0 == var@;
                    assert(env0[j].0 != var@);
                }
            }
        }
        inherited
    }

    /// Attaches a jobserver handle; the builder keeps a clone of it.
    pub fn inherit_jobserver(&mut self, jobserver: &jobserver::Client) -> (r: &mut ProcessBuilder)
        ensures
            r@ == (CommandView { has_jobserver: true, ..old(self)@ }),
            *final(self) == *final(r),
    {
        self.jobserver = Some(jobserver.clone());
        self
    }

    /// The jobserver handle, if one is attached.
    pub fn get_jobserver(&self) -> (r: Option<&jobserver::Client>)
        ensures
            r is Some <==> self@.has_jobserver,
    {
        match &self.jobserver {
            Some(c) => Some(c),
            None => None,
        }
    }

    /// Makes rendering show the variables that the overlay sets.
    pub fn display_env_vars(&mut self) -> (r: &mut ProcessBuilder)
        ensures
            r@ == (CommandView { display_env_vars: true, ..old(self)@ }),
            *final(self) == *final(r),
    {
        self.display_env_vars = true;
        self
    }

    /// Wraps the command in `wrapper`: a non-empty wrapper becomes the
    /// program and the old program its first argument; `None` or an empty
    /// wrapper leaves the builder as it is.
    pub fn wrapped(self, wrapper: Option<&str>) -> (r: ProcessBuilder)
        ensures
            r@ == wrapped_view(self@, match wrapper {
                Some(w) => Some(w@),
                None => None,
            }),
            self.wf() ==> r.wf(),
    {
        let w = match wrapper {
            Some(w) => w,
            None => return self,
        };
        if w.is_empty() {
            return self;
        }
        let ghost v0 = self@;
        let ProcessBuilder { program, mut args, env, cwd, jobserver, display_env_vars } = self;
        args.insert(0, program);
        let r = ProcessBuilder { program: w.to_owned(), args, env, cwd, jobserver, display_env_vars };
        proof {
            assert(r@.args =~= seq![v0.program] + v0.args);
        }
        r
    }
}

/// The builder after wrapping with `wrapper`.
pub open spec fn wrapped_view(b: CommandView, wrapper: Option<Seq<char>>) -> CommandView {
    match wrapper {
        Some(w) if w.len() > 0 => CommandView { program: w, args: seq![b.program] + b.args, ..b },
        _ => b,
    }
}


impl ProcessBuilder {
    /// Renders the command for diagnostics, quoting each word for `style`;
    /// where environment display is on, each variable that the overlay sets
    /// is shown first.
    pub fn render(&self, style: ShellStyle) -> (r: String)
        ensures
            r@ == rendered(self@, style),
    {
        let ghost v = self@;
        let mut out = String::new();
        out.append("`");
        proof {
            reveal_strlit("`");
            assert(out@ =~= seq!['`']);
        }
        if self.display_env_vars {
            let mut i: usize = 0;
            while i < self.env.len()
                invariant
                    v == self@,
                    0 <= i <= self.env@.len(),
                    out@ == seq!['`'] + env_prefix(v.env.subrange(0, i as int), style),
                decreases self.env@.len() - i,
            {
                let ghost before = out@;
                match &self.env[i].1 {
                    Some(val) => {
                        match style {
                            ShellStyle::Posix => {
                                out.append(self.env[i].0.as_str());
                                out.append("=");
                                let q = quote_word(val.as_str(), style);
                                out.append(q.as_str());
                                out.append(" ");
                                proof {
                                    reveal_strlit("=");
                                    reveal_strlit(" ");
                                }
                            },
                            ShellStyle::Cmd => {
                                out.append("set ");
                                out.append(self.env[i].0.as_str());
                                out.append("=");
                                let q = quote_word(val.as_str(), style);
                                out.append(q.as_str());
                                out.append("&& ");
                                proof {
                                    reveal_strlit("set ");
                                    reveal_strlit("=");
                                    reveal_strlit("&& ");
                                }
                            },
                        }
                        proof {
                            assert(out@ =~= before + assignment(v.env[i as int].0, v.env[i as int].1->Some_0, style));
                        }
                    },
                    None => {},
                }
                proof {
                    assert(v.env.subrange(0, i + 1).drop_last() =~= v.env.subrange(0, i as int));
                    assert(out@ =~= seq!['`'] + env_prefix(v.env.subrange(0, i + 1), style));
                }
                i = i + 1;
            }
            proof {
                assert(v.env.subrange(0, i as int) =~= v.env);
            }
        }
        let ghost head = out@;
        out.append(self.program.as_str());
        let mut j: usize = 0;
        while j < self.args.len()
            invariant
                v == self@,
                0 <= j <= self.args@.len(),
                out@ == head + v.program + args_suffix(v.args.subrange(0, j as int), style),
            decreases self.args@.len() - j,
        {
            let ghost before = out@;
            out.append(" ");
            let q = quote_word(self.args[j].as_str(), style);
            out.append(q.as_str());
            proof {
                reveal_strlit(" ");
                assert(v.args.subrange(0, j + 1).drop_last() =~= v.args.subrange(0, j as int));
                assert(out@ =~= head + v.program + args_suffix(v.args.subrange(0, j + 1), style));
            }
            j = j + 1;
        }
        out.append("`");
        proof {
            reveal_strlit("`");
            assert(v.args.subrange(0, j as int) =~= v.args);
            assert(out@ =~= rendered(v, style));
        }
        out
    }

    /// Renders the command with POSIX shell quoting.
    pub fn to_string(&self) -> (r: String)
        ensures
            r@ == rendered(self@, ShellStyle::Posix),
    {
        self.render(ShellStyle::Posix)
    }
}

} // verus!
