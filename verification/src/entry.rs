//! Desktop-entry descriptors: sections of key/value attributes, the rules
//! that extract a launch record from them, and the trusted reader that turns
//! descriptor bytes into sections.

use vstd::prelude::*;

use crate::command::{parse_exec, parse_exec_spec, Exec, ExecView};
use crate::error::EntryError;
use crate::strings::{contains_sub, str_contains, str_eq};

verus! {

/// One named section of a descriptor: a title and its key/value attributes,
/// in file order.
#[derive(Debug, Clone)]
pub struct Section {
    /// The section title, without brackets.
    pub name: String,
    /// The attributes, each a key and a value.
    pub attrs: Vec<(String, String)>,
}

/// The mathematical shape of a [`Section`].
pub struct SectionView {
    /// Characters of the section title.
    pub name: Seq<char>,
    /// Key and value characters of each attribute.
    pub attrs: Seq<(Seq<char>, Seq<char>)>,
}

impl View for Section {
    type V = SectionView;

    open spec fn view(&self) -> SectionView {
        SectionView {
            name: self.name@,
            attrs: self.attrs@.map_values(|p: (String, String)| (p.0@, p.1@)),
        }
    }
}

/// The views of a section list.
pub open spec fn secs_view(ss: Seq<Section>) -> Seq<SectionView> {
    ss.map_values(|s: Section| s@)
}

/// The value of the first attribute with the given key, if any.
pub open spec fn attr_lookup(attrs: Seq<(Seq<char>, Seq<char>)>, key: Seq<char>) -> Option<
    Seq<char>,
>
    decreases attrs.len(),
{
    if attrs.len() == 0 {
        None
    } else if attrs[0].0 == key {
        Some(attrs[0].1)
    } else {
        attr_lookup(attrs.drop_first(), key)
    }
}

impl Section {
    /// Look up an attribute value by exact key.
    pub fn attr(&self, key: &str) -> (r: Option<&String>)
        ensures
            match r {
                Some(v) => attr_lookup(self@.attrs, key@) == Some(v@),
                None => attr_lookup(self@.attrs, key@) is None,
            },
    {
        let ghost full = self@.attrs;
        let n = self.attrs.len();
        let mut j: usize = 0;
        proof {
            assert(full.skip(0) =~= full);
            assert(full.len() == n);
        }
        while j < n
            invariant
                j <= n,
                n == self.attrs@.len(),
                full == self@.attrs,
                full.len() == n,
                attr_lookup(full, key@) == attr_lookup(full.skip(j as int), key@),
            decreases n - j,
        {
            let ghost rem = full.skip(j as int);
            proof {
                assert(rem.len() > 0 && rem[0] == full[j as int]);
                assert(full[j as int] == (self.attrs@[j as int].0@, self.attrs@[j as int].1@));
                assert(rem.drop_first() =~= full.skip(j + 1));
            }
            if str_eq(self.attrs[j].0.as_str(), key) {
                return Some(&self.attrs[j].1);
            }
            j = j + 1;
        }
        proof {
            assert(full.skip(n as int) =~= Seq::<(Seq<char>, Seq<char>)>::empty());
        }
        None
    }
}

/// A named sub-command of an application.
#[derive(Debug, Clone)]
pub struct Action {
    /// The action's display name.
    pub name: String,
    /// The action's command.
    pub command: Exec,
}

/// The mathematical shape of an [`Action`].
pub struct ActionView {
    /// Characters of the display name.
    pub name: Seq<char>,
    /// The command's shape.
    pub command: ExecView,
}

impl View for Action {
    type V = ActionView;

    open spec fn view(&self) -> ActionView {
        ActionView { name: self.name@, command: self.command@ }
    }
}

/// One launch record of the index.
#[derive(Debug, Clone)]
pub struct Application {
    /// The display name; the identity under which records deduplicate.
    pub name: String,
    /// An optional human-readable subtitle.
    pub desc: Option<String>,
    /// The command to launch.
    pub command: Exec,
    /// An optional working directory to run the command from.
    pub path: Option<String>,
    /// The named sub-commands, in file order.
    pub actions: Vec<Action>,
}

/// The mathematical shape of an [`Application`].
pub struct ApplicationView {
    /// Characters of the display name.
    pub name: Seq<char>,
    /// Characters of the subtitle, if any.
    pub desc: Option<Seq<char>>,
    /// The command's shape.
    pub command: ExecView,
    /// Characters of the working directory, if any.
    pub path: Option<Seq<char>>,
    /// The shapes of the sub-commands.
    pub actions: Seq<ActionView>,
}

/// The view of an optional string.
pub open spec fn opt_str_view(o: Option<String>) -> Option<Seq<char>> {
    match o {
        None => None,
        Some(s) => Some(s@),
    }
}

impl View for Application {
    type V = ApplicationView;

    open spec fn view(&self) -> ApplicationView {
        ApplicationView {
            name: self.name@,
            desc: opt_str_view(self.desc),
            command: self.command@,
            path: opt_str_view(self.path),
            actions: self.actions@.map_values(|a: Action| a@),
        }
    }
}

impl Application {
    /// Assemble a record from its parts.
    pub fn new(
        name: String,
        desc: Option<String>,
        command: Exec,
        path: Option<String>,
        actions: Vec<Action>,
    ) -> (r: Self)
        ensures
            r@ == (ApplicationView {
                name: name@,
                desc: opt_str_view(desc),
                command: command@,
                path: opt_str_view(path),
                actions: actions@.map_values(|a: Action| a@),
            }),
    {
        Self { name, desc, command, path, actions }
    }
}

/// A section that asks for the whole entry to be suppressed.
pub open spec fn section_suppressed(s: SectionView) -> bool {
    attr_lookup(s.attrs, "Hidden"@) == Some("true"@) || attr_lookup(s.attrs, "NoDisplay"@) == Some(
        "true"@,
    )
}

/// An entry is suppressed when any of its sections carries `Hidden=true` or
/// `NoDisplay=true`; suppression takes precedence over every other rule.
pub open spec fn entry_suppressed(ss: Seq<SectionView>) -> bool {
    exists|i: int| 0 <= i < ss.len() && section_suppressed(#[trigger] ss[i])
}

fn attr_is_true(sec: &Section, key: &str) -> (r: bool)
    ensures
        r == (attr_lookup(sec@.attrs, key@) == Some("true"@)),
{
    match sec.attr(key) {
        Some(v) => str_eq(v.as_str(), "true"),
        None => false,
    }
}

fn is_suppressed(sections: &Vec<Section>) -> (r: bool)
    ensures
        r == entry_suppressed(secs_view(sections@)),
{
    let ghost ssv = secs_view(sections@);
    let n = sections.len();
    let mut i: usize = 0;
    proof {
        assert(ssv.len() == n);
    }
    while i < n
        invariant
            i <= n,
            n == sections@.len(),
            ssv == secs_view(sections@),
            ssv.len() == n,
            forall|j: int| 0 <= j < i ==> !section_suppressed(#[trigger] ssv[j]),
        decreases n - i,
    {
        let sec = &sections[i];
        proof {
            assert(ssv[i as int] == sec@);
        }
        if attr_is_true(sec, "Hidden") || attr_is_true(sec, "NoDisplay") {
            return true;
        }
        i = i + 1;
    }
    false
}

/// The launch data of the primary section.
pub struct PrimaryView {
    /// Characters of the display name.
    pub name: Seq<char>,
    /// Characters of the subtitle, if any.
    pub desc: Option<Seq<char>>,
    /// The parsed command.
    pub command: ExecView,
    /// Characters of the working directory, if any.
    pub path: Option<Seq<char>>,
}

/// What a walk over the sections has gathered so far.
pub struct PartialEntry {
    /// The primary section's data, once seen.
    pub primary: Option<PrimaryView>,
    /// The actions gathered so far, in order.
    pub actions: Seq<ActionView>,
}

/// How one section advances the walk: every section must name itself and give
/// a command; the primary section may appear only once and contributes the
/// launch data; action sections contribute a sub-command; other sections are
/// checked and otherwise ignored.
pub open spec fn step_section(st: PartialEntry, s: SectionView) -> Result<
    PartialEntry,
    EntryError,
> {
    let name = attr_lookup(s.attrs, "Name"@);
    let exec_str = attr_lookup(s.attrs, "Exec"@);
    if name is None {
        Err(EntryError::MissingName)
    } else if exec_str is None {
        Err(EntryError::MissingExec)
    } else if s.name == "Desktop Entry"@ {
        if st.primary is Some {
            Err(EntryError::PrimaryDefinedTwice)
        } else {
            match parse_exec_spec(exec_str->0) {
                Err(e) => Err(e),
                Ok(cmd) => Ok(
                    PartialEntry {
                        primary: Some(
                            PrimaryView {
                                name: name->0,
                                desc: attr_lookup(s.attrs, "Comment"@),
                                command: cmd,
                                path: attr_lookup(s.attrs, "Path"@),
                            },
                        ),
                        actions: st.actions,
                    },
                ),
            }
        }
    } else if contains_sub(s.name, "Desktop Action"@) {
        match parse_exec_spec(exec_str->0) {
            Err(e) => Err(e),
            Ok(cmd) => Ok(
                PartialEntry {
                    primary: st.primary,
                    actions: st.actions.push(ActionView { name: name->0, command: cmd }),
                },
            ),
        }
    } else {
        Ok(st)
    }
}

/// The walk over all sections, in file order.
pub open spec fn fold_sections(ss: Seq<SectionView>, st: PartialEntry) -> Result<
    PartialEntry,
    EntryError,
>
    decreases ss.len(),
{
    if ss.len() == 0 {
        Ok(st)
    } else {
        match step_section(st, ss[0]) {
            Err(e) => Err(e),
            Ok(st2) => fold_sections(ss.drop_first(), st2),
        }
    }
}

/// What parsing a descriptor's sections returns: `None` for a suppressed
/// entry; otherwise the record assembled by the walk, or the first error the
/// walk meets; an entry whose walk finds no primary section is an error.
pub open spec fn parse_entry_spec(ss: Seq<SectionView>) -> Result<
    Option<ApplicationView>,
    EntryError,
> {
    if entry_suppressed(ss) {
        Ok(None)
    } else {
        match fold_sections(ss, PartialEntry { primary: None, actions: Seq::empty() }) {
            Err(e) => Err(e),
            Ok(st) => match st.primary {
                None => Err(EntryError::PrimaryNotFound),
                Some(p) => Ok(
                    Some(
                        ApplicationView {
                            name: p.name,
                            desc: p.desc,
                            command: p.command,
                            path: p.path,
                            actions: st.actions,
                        },
                    ),
                ),
            },
        }
    }
}

/// The view of an entry parse result, for stating contracts.
pub open spec fn entry_result_view(r: Result<Option<Application>, EntryError>) -> Result<
    Option<ApplicationView>,
    EntryError,
> {
    match r {
        Ok(None) => Ok(None),
        Ok(Some(a)) => Ok(Some(a@)),
        Err(e) => Err(e),
    }
}

/// The view of the primary data gathered so far.
pub open spec fn prim_view(p: Option<(String, Option<String>, Exec, Option<String>)>) -> Option<
    PrimaryView,
> {
    match p {
        None => None,
        Some(t) => Some(
            PrimaryView {
                name: t.0@,
                desc: opt_str_view(t.1),
                command: t.2@,
                path: opt_str_view(t.3),
            },
        ),
    }
}

/// Parse the sections of one descriptor into a launch record.
///
/// Returns `Ok(None)` exactly when the entry is suppressed by `Hidden=true`
/// or `NoDisplay=true` in any section; otherwise returns the record, or the
/// first structural error met in file order.
pub fn parse_entry(sections: &Vec<Section>) -> (r: Result<Option<Application>, EntryError>)
    ensures
        entry_result_view(r) == parse_entry_spec(secs_view(sections@)),
        entry_suppressed(secs_view(sections@)) ==> r == Ok::<Option<Application>, EntryError>(None),
{
    let ghost ssv = secs_view(sections@);
    if is_suppressed(sections) {
        return Ok(None);
    }
    let ghost init = PartialEntry { primary: None, actions: Seq::empty() };
    let mut prim: Option<(String, Option<String>, Exec, Option<String>)> = None;
    let mut actions: Vec<Action> = Vec::new();
    let n = sections.len();
    let mut i: usize = 0;
    proof {
        assert(ssv.skip(0) =~= ssv);
        assert(ssv.len() == n);
        assert(actions@.map_values(|a: Action| a@) =~= Seq::<ActionView>::empty());
    }
    while i < n
        invariant
            i <= n,
            n == sections@.len(),
            ssv == secs_view(sections@),
            ssv.len() == n,
            !entry_suppressed(ssv),
            init == (PartialEntry { primary: None, actions: Seq::<ActionView>::empty() }),
            fold_sections(ssv, init) == fold_sections(
                ssv.skip(i as int),
                PartialEntry {
                    primary: prim_view(prim),
                    actions: actions@.map_values(|a: Action| a@),
                },
            ),
        decreases n - i,
    {
        let ghost rem = ssv.skip(i as int);
        let ghost cur = PartialEntry {
            primary: prim_view(prim),
            actions: actions@.map_values(|a: Action| a@),
        };
        let sec = &sections[i];
        proof {
            assert(rem.len() > 0 && rem[0] == ssv[i as int] && ssv[i as int] == sec@);
            assert(rem.drop_first() =~= ssv.skip(i + 1));
        }
        let sec_name = match sec.attr("Name") {
            Some(v) => v.clone(),
            None => {
                proof {
                    assert(step_section(cur, rem[0]) == Err::<PartialEntry, EntryError>(
                        EntryError::MissingName,
                    ));
                }
                return Err(EntryError::MissingName);
            },
        };
        let sec_exec = match sec.attr("Exec") {
            Some(v) => v.clone(),
            None => {
                proof {
                    assert(step_section(cur, rem[0]) == Err::<PartialEntry, EntryError>(
                        EntryError::MissingExec,
                    ));
                }
                return Err(EntryError::MissingExec);
            },
        };
        if str_eq(sec.name.as_str(), "Desktop Entry") {
            if prim.is_some() {
                return Err(EntryError::PrimaryDefinedTwice);
            }
            let cmd = match parse_exec(sec_exec.as_str()) {
                Ok(c) => c,
                Err(e) => {
                    return Err(e);
                },
            };
            let sec_desc = match sec.attr("Comment") {
                Some(v) => Some(v.clone()),
                None => None,
            };
            let sec_path = match sec.attr("Path") {
                Some(v) => Some(v.clone()),
                None => None,
            };
            prim = Some((sec_name, sec_desc, cmd, sec_path));
            proof {
                assert(step_section(cur, rem[0]) is Ok);
                assert(step_section(cur, rem[0])->Ok_0 == (PartialEntry {
                    primary: prim_view(prim),
                    actions: actions@.map_values(|a: Action| a@),
                }));
            }
        } else if str_contains(sec.name.as_str(), "Desktop Action") {
            let cmd = match parse_exec(sec_exec.as_str()) {
                Ok(c) => c,
                Err(e) => {
                    return Err(e);
                },
            };
            let ghost before = actions@.map_values(|a: Action| a@);
            let act = Action { name: sec_name, command: cmd };
            let ghost actv = act@;
            actions.push(act);
            proof {
                assert(actions@.map_values(|a: Action| a@) =~= before.push(actv));
                assert(step_section(cur, rem[0]) is Ok);
                assert(step_section(cur, rem[0])->Ok_0 == (PartialEntry {
                    primary: prim_view(prim),
                    actions: actions@.map_values(|a: Action| a@),
                }));
            }
        } else {
            proof {
                assert(step_section(cur, rem[0]) == Ok::<PartialEntry, EntryError>(cur));
            }
        }
        i = i + 1;
    }
    proof {
        assert(ssv.skip(n as int) =~= Seq::<SectionView>::empty());
    }
    match prim {
        None => Err(EntryError::PrimaryNotFound),
        Some(t) => {
            let (name, desc, cmd, path) = t;
            let app = Application::new(name, desc, cmd, path, actions);
            Ok(Some(app))
        },
    }
}

/// The outside parser's error for descriptor text that is not made of
/// sections.
#[verifier::external_type_specification]
#[verifier::external_body]
pub struct ExParseError(freedesktop_entry_parser::ParseError);

/// What the outside descriptor reader extracts from the given bytes: the
/// sections in file order, or nothing when the bytes do not parse.
pub uninterp spec fn parsed_sections(bytes: Seq<u8>) -> Option<Seq<SectionView>>;

/// Relies on `freedesktop_entry_parser::low_level::parse_entry`: the
/// sections of the descriptor text, in file order and without merging, each
/// an ordered list of key/value attributes; a function of the bytes alone.
/// Descriptor text must be UTF-8, as the crate's own string layer demands.
#[verifier::external_body]
fn read_sections(bytes: &[u8]) -> (r: Result<Vec<Section>, freedesktop_entry_parser::ParseError>)
    ensures
        r is Ok <==> parsed_sections(bytes@) is Some,
        r is Ok ==> secs_view(r->Ok_0@) == parsed_sections(bytes@)->0,
{
    let to_err = |e| freedesktop_entry_parser::ParseError::Utf8Error { bytes: bytes.to_vec(), source: e };
    std::str::from_utf8(bytes).map_err(to_err)?;
    let mut out = Vec::new();
    for sec in freedesktop_entry_parser::low_level::parse_entry(bytes) {
        let sec = sec?;
        let to_str = |b: &[u8]| String::from_utf8_lossy(b).into_owned();
        let attrs = sec.attrs.iter().map(|a| (to_str(a.name), to_str(a.value))).collect();
        out.push(Section { name: to_str(sec.title), attrs });
    }
    Ok(out)
}

/// Parse one descriptor's bytes into a launch record.
///
/// Bytes that do not parse as sections fail with [`EntryError::Format`];
/// otherwise the result is exactly what [`parse_entry`] returns on the
/// descriptor's sections.
pub fn parse_entry_bytes(bytes: &[u8]) -> (r: Result<Option<Application>, EntryError>)
    ensures
        parsed_sections(bytes@) is None ==> r == Err::<Option<Application>, EntryError>(
            EntryError::Format,
        ),
        parsed_sections(bytes@) is Some ==> entry_result_view(r) == parse_entry_spec(
            parsed_sections(bytes@)->0,
        ),
{
    match read_sections(bytes) {
        Err(_) => Err(EntryError::Format),
        Ok(sections) => parse_entry(&sections),
    }
}

proof fn lemma_fold_no_primary(ss: Seq<SectionView>, st: PartialEntry)
    requires
        forall|j: int|
            0 <= j < ss.len() ==> attr_lookup(#[trigger] ss[j].attrs, "Name"@) is Some
                && attr_lookup(ss[j].attrs, "Exec"@) is Some,
        forall|j: int| 0 <= j < ss.len() ==> (#[trigger] ss[j].name) != "Desktop Entry"@,
        forall|j: int|
            0 <= j < ss.len() && contains_sub(#[trigger] ss[j].name, "Desktop Action"@)
                ==> parse_exec_spec(attr_lookup(ss[j].attrs, "Exec"@)->0) is Ok,
    ensures
        fold_sections(ss, st) is Ok,
        fold_sections(ss, st)->Ok_0.primary == st.primary,
    decreases ss.len(),
{
    if ss.len() == 0 {
    } else {
        let st2 = step_section(st, ss[0]);
        assert(st2 is Ok && st2->Ok_0.primary == st.primary);
        let tail = ss.drop_first();
        assert forall|j: int| 0 <= j < tail.len() implies attr_lookup(
            #[trigger] tail[j].attrs,
            "Name"@,
        ) is Some && attr_lookup(tail[j].attrs, "Exec"@) is Some by {
            assert(tail[j] == ss[j + 1]);
        }
        assert forall|j: int| 0 <= j < tail.len() implies (#[trigger] tail[j].name)
            != "Desktop Entry"@ by {
            assert(tail[j] == ss[j + 1]);
        }
        assert forall|j: int|
            0 <= j < tail.len() && contains_sub(
                #[trigger] tail[j].name,
                "Desktop Action"@,
            ) implies parse_exec_spec(attr_lookup(tail[j].attrs, "Exec"@)->0) is Ok by {
            assert(tail[j] == ss[j + 1]);
        }
        lemma_fold_no_primary(tail, st2->Ok_0);
    }
}

proof fn lemma_fold_one_primary(ss: Seq<SectionView>, st: PartialEntry, i: int)
    requires
        0 <= i < ss.len(),
        ss[i].name == "Desktop Entry"@,
        forall|j: int|
            0 <= j < ss.len() && j != i ==> (#[trigger] ss[j].name) != "Desktop Entry"@,
        forall|j: int|
            0 <= j < ss.len() ==> attr_lookup(#[trigger] ss[j].attrs, "Name"@) is Some
                && attr_lookup(ss[j].attrs, "Exec"@) is Some,
        parse_exec_spec(attr_lookup(ss[i].attrs, "Exec"@)->0) is Ok,
        forall|j: int|
            0 <= j < ss.len() && contains_sub(#[trigger] ss[j].name, "Desktop Action"@)
                ==> parse_exec_spec(attr_lookup(ss[j].attrs, "Exec"@)->0) is Ok,
        st.primary is None,
    ensures
        fold_sections(ss, st) is Ok,
        fold_sections(ss, st)->Ok_0.primary == Some(
            PrimaryView {
                name: attr_lookup(ss[i].attrs, "Name"@)->0,
                desc: attr_lookup(ss[i].attrs, "Comment"@),
                command: parse_exec_spec(attr_lookup(ss[i].attrs, "Exec"@)->0)->Ok_0,
                path: attr_lookup(ss[i].attrs, "Path"@),
            },
        ),
    decreases ss.len(),
{
    let tail = ss.drop_first();
    assert forall|j: int| 0 <= j < tail.len() implies attr_lookup(
        #[trigger] tail[j].attrs,
        "Name"@,
    ) is Some && attr_lookup(tail[j].attrs, "Exec"@) is Some by {
        assert(tail[j] == ss[j + 1]);
    }
    assert forall|j: int|
        0 <= j < tail.len() && contains_sub(
            #[trigger] tail[j].name,
            "Desktop Action"@,
        ) implies parse_exec_spec(attr_lookup(tail[j].attrs, "Exec"@)->0) is Ok by {
        assert(tail[j] == ss[j + 1]);
    }
    if i == 0 {
        let st2 = step_section(st, ss[0]);
        assert(st2 is Ok);
        assert forall|j: int| 0 <= j < tail.len() implies (#[trigger] tail[j].name)
            != "Desktop Entry"@ by {
            assert(tail[j] == ss[j + 1]);
        }
        lemma_fold_no_primary(tail, st2->Ok_0);
    } else {
        assert(ss[0].name != "Desktop Entry"@);
        let st2 = step_section(st, ss[0]);
        assert(st2 is Ok && st2->Ok_0.primary is None);
        assert forall|j: int| 0 <= j < tail.len() && j != i - 1 implies (#[trigger] tail[j].name)
            != "Desktop Entry"@ by {
            assert(tail[j] == ss[j + 1]);
        }
        assert(tail[i - 1] == ss[i]);
        lemma_fold_one_primary(tail, st2->Ok_0, i - 1);
    }
}

/// Round trip on the happy path: a descriptor that is not suppressed, whose
/// sections all carry `Name` and `Exec`, with exactly one primary section
/// whose command parses and whose action commands parse, yields a record
/// whose `name` and `command` are exactly the primary section's `Name` value
/// and the parse of its `Exec` value.
pub proof fn lemma_parse_entry_round_trip(ss: Seq<SectionView>, i: int)
    requires
        !entry_suppressed(ss),
        0 <= i < ss.len(),
        ss[i].name == "Desktop Entry"@,
        forall|j: int|
            0 <= j < ss.len() && j != i ==> (#[trigger] ss[j].name) != "Desktop Entry"@,
        forall|j: int|
            0 <= j < ss.len() ==> attr_lookup(#[trigger] ss[j].attrs, "Name"@) is Some
                && attr_lookup(ss[j].attrs, "Exec"@) is Some,
        parse_exec_spec(attr_lookup(ss[i].attrs, "Exec"@)->0) is Ok,
        forall|j: int|
            0 <= j < ss.len() && contains_sub(#[trigger] ss[j].name, "Desktop Action"@)
                ==> parse_exec_spec(attr_lookup(ss[j].attrs, "Exec"@)->0) is Ok,
    ensures
        parse_entry_spec(ss) is Ok,
        parse_entry_spec(ss)->Ok_0 is Some,
        parse_entry_spec(ss)->Ok_0->0.name == attr_lookup(ss[i].attrs, "Name"@)->0,
        parse_entry_spec(ss)->Ok_0->0.command == parse_exec_spec(
            attr_lookup(ss[i].attrs, "Exec"@)->0,
        )->Ok_0,
        parse_entry_spec(ss)->Ok_0->0.desc == attr_lookup(ss[i].attrs, "Comment"@),
        parse_entry_spec(ss)->Ok_0->0.path == attr_lookup(ss[i].attrs, "Path"@),
{
    lemma_fold_one_primary(ss, PartialEntry { primary: None, actions: Seq::empty() }, i);
}

} // verus!
