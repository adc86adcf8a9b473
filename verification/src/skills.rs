//! Skills: named prompt fragments that can be switched on and off, and
//! the system prompt built from those that are on.

use vstd::prelude::*;
use vstd::string::{StrSliceExecFns, StringExecFns};
use crate::text::{
    occurs_at, occurs_in, first_occurrence, has_prefix, lemma_text_lt_transitive, lemma_text_lt_total, str_eq,
    substring, text_less, text_lt, trim, trim_spec, trim_start, trim_start_spec, find, starts_with, trim_end_slashes,
    trim_end_slashes_spec, chars_of,
};

verus! {

/// What a skill's YAML frontmatter declares.
#[derive(Debug)]
pub struct SkillMeta {
    pub name: String,
    pub description: Option<String>,
    pub enabled: bool,
}

/// A skill is switched on unless its frontmatter says otherwise.
pub fn default_enabled() -> (r: bool)
    ensures
        r,
{
    true
}

/// A loaded skill.
#[derive(Debug)]
pub struct Skill {
    pub name: String,
    pub description: Option<String>,
    pub enabled: bool,
    pub content: String,
    /// The directory the skill was loaded from, as text.
    pub path: String,
}

/// A skill as plain values.
pub struct SkillView {
    pub name: Seq<char>,
    pub description: Option<Seq<char>>,
    pub enabled: bool,
    pub content: Seq<char>,
    pub path: Seq<char>,
}

/// The characters of an optional string.
pub open spec fn opt_text(o: Option<String>) -> Option<Seq<char>> {
    match o {
        Some(s) => Some(s@),
        None => None,
    }
}

impl View for Skill {
    type V = SkillView;

    open spec fn view(&self) -> SkillView {
        SkillView {
            name: self.name@,
            description: opt_text(self.description),
            enabled: self.enabled,
            content: self.content@,
            path: self.path@,
        }
    }
}

/// The two parts of a skill file: the YAML between the `---` lines, when
/// the file starts with one, and the text that follows.
#[derive(Debug)]
pub struct Frontmatter {
    pub yaml: Option<String>,
    pub body: String,
}

/// Why a skill file could not be split.
#[derive(Debug)]
pub enum SkillError {
    /// The file opens a frontmatter block with `---` and never closes it.
    FrontmatterNotClosed,
}

/// How a skill file splits: `None` when its frontmatter is not closed,
/// else the frontmatter (if the file has one) and the body.
pub open spec fn frontmatter_spec(content: Seq<char>) -> Option<(Option<Seq<char>>, Seq<char>)> {
    let t = trim_start_spec(content);
    if !has_prefix(t, "---"@) {
        Some((None, t))
    } else {
        let rest = t.skip(3);
        match first_occurrence(rest, "\n---"@) {
            Some(e) => Some((Some(rest.take(e)), rest.skip(e + 4))),
            None => None,
        }
    }
}

/// The characters of `t` after its last `'/'` (all of `t` when it has none).
pub open spec fn after_last_slash(t: Seq<char>) -> Seq<char>
    decreases t.len(),
{
    if t.len() == 0 {
        t
    } else if t.last() == '/' {
        Seq::empty()
    } else {
        after_last_slash(t.drop_last()).push(t.last())
    }
}

/// The last component of a directory path: what follows its last `'/'`,
/// once the `'/'` characters at its end are dropped.
pub open spec fn folder_name_spec(path: Seq<char>) -> Seq<char> {
    after_last_slash(trim_end_slashes_spec(path))
}

/// The last component of the directory path `path`.
pub fn folder_name(path: &str) -> (r: String)
    ensures
        r@ == folder_name_spec(path@),
{
    let t = trim_end_slashes(path);
    let v = chars_of(t);
    let n = v.len();
    let mut i: usize = n;
    assert(t@.subrange(0, n as int) == t@);
    assert(t@.subrange(n as int, n as int).len() == 0);
    while i > 0 && v[i - 1] != '/'
        invariant
            i <= n,
            n == t@.len(),
            v@ == t@,
            after_last_slash(t@) == after_last_slash(t@.subrange(0, i as int)) + t@.subrange(i as int, n as int),
        decreases i,
    {
        let ghost pre = t@.subrange(0, i as int);
        assert(pre.drop_last() == t@.subrange(0, i - 1));
        assert(t@.subrange(i - 1, n as int) == seq![pre.last()] + t@.subrange(i as int, n as int));
        assert(after_last_slash(pre) == after_last_slash(pre.drop_last()).push(pre.last()));
        assert(after_last_slash(pre.drop_last()).push(pre.last()) + t@.subrange(i as int, n as int)
            == after_last_slash(pre.drop_last()) + t@.subrange(i - 1, n as int));
        i = i - 1;
    }
    substring(t, i, n)
}

/// The skill that a file's parts describe; without frontmatter the skill
/// is named after its folder, has no description, and is on.
pub open spec fn skill_spec(meta: Option<(Seq<char>, Option<Seq<char>>, bool)>, body: Seq<char>, path: Seq<char>) -> SkillView {
    match meta {
        Some((name, description, enabled)) => SkillView {
            name,
            description,
            enabled,
            content: trim_spec(body),
            path,
        },
        None => SkillView {
            name: folder_name_spec(path),
            description: None,
            enabled: true,
            content: trim_spec(body),
            path,
        },
    }
}

/// The metadata as plain values.
pub open spec fn meta_view(meta: Option<SkillMeta>) -> Option<(Seq<char>, Option<Seq<char>>, bool)> {
    match meta {
        Some(m) => Some((m.name@, opt_text(m.description), m.enabled)),
        None => None,
    }
}

impl Skill {
    /// The skill described by its metadata (if the file had frontmatter;
    /// else the skill takes its folder's name), its body, whose white space
    /// at both ends is dropped, and its directory.
    pub fn new(meta: Option<SkillMeta>, body: &str, path: String) -> (r: Skill)
        ensures
            r@ == skill_spec(meta_view(meta), body@, path@),
    {
        let content = trim(body).to_owned();
        match meta {
            Some(m) => Skill {
                name: m.name,
                description: m.description,
                enabled: m.enabled,
                content,
                path,
            },
            None => {
                let name = folder_name(path.as_str());
                Skill { name, description: None, enabled: true, content, path }
            },
        }
    }
}

/// Whether some skill is called `name`.
pub open spec fn has_skill(skills: Seq<SkillView>, name: Seq<char>) -> bool {
    exists|i: int| 0 <= i < skills.len() && skills[i].name == name
}

/// No two skills share a name.
pub open spec fn names_unique(skills: Seq<SkillView>) -> bool {
    forall|i: int, j: int|
        0 <= i < skills.len() && 0 <= j < skills.len() && i != j ==> skills[i].name != skills[j].name
}

/// `s`, switched on or off.
pub open spec fn with_enabled(s: SkillView, on: bool) -> SkillView {
    SkillView { enabled: on, ..s }
}

/// The skills, with the one called `name` switched on or off.
pub open spec fn set_enabled_spec(skills: Seq<SkillView>, name: Seq<char>, on: bool) -> Seq<SkillView> {
    skills.map_values(|s: SkillView| if s.name == name { with_enabled(s, on) } else { s })
}

/// The skills after adding `s`: it takes the place of a skill of the
/// same name, or comes last.
pub open spec fn insert_spec(skills: Seq<SkillView>, s: SkillView) -> Seq<SkillView> {
    if has_skill(skills, s.name) {
        skills.map_values(|t: SkillView| if t.name == s.name { s } else { t })
    } else {
        skills.push(s)
    }
}

/// The skills after adding each of `list`, in order.
pub open spec fn insert_all_spec(skills: Seq<SkillView>, list: Seq<SkillView>) -> Seq<SkillView>
    decreases list.len(),
{
    if list.len() == 0 {
        skills
    } else {
        insert_spec(insert_all_spec(skills, list.drop_last()), list.last())
    }
}

/// Whether any skill is on.
pub open spec fn any_enabled(skills: Seq<SkillView>) -> bool {
    exists|i: int| 0 <= i < skills.len() && skills[i].enabled
}

/// The part of the system prompt that one skill contributes.
pub open spec fn section_spec(s: SkillView) -> Seq<char> {
    "\n## "@ + s.name + "\n"@ + match s.description {
        Some(d) => d + "\n"@,
        None => Seq::empty(),
    } + "\n"@ + s.content + "\n"@
}

/// The sections of the skills that are on, in order.
pub open spec fn sections_spec(skills: Seq<SkillView>) -> Seq<char>
    decreases skills.len(),
{
    if skills.len() == 0 {
        Seq::empty()
    } else {
        sections_spec(skills.drop_last()) + if skills.last().enabled {
            section_spec(skills.last())
        } else {
            Seq::empty()
        }
    }
}

/// The system prompt: the base prompt alone when no skill is on, else the
/// base prompt, a `# Skills` heading and a section per skill that is on.
pub open spec fn system_prompt_spec(base: Seq<char>, skills: Seq<SkillView>) -> Seq<char> {
    if any_enabled(skills) {
        base + "\n\n# Skills\n"@ + sections_spec(skills)
    } else {
        base
    }
}

/// One line of the skill list: name, description (empty when there is
/// none) and whether the skill is on.
pub open spec fn list_entry(s: SkillView) -> (Seq<char>, Seq<char>, bool) {
    (
        s.name,
        match s.description {
            Some(d) => d,
            None => Seq::empty(),
        },
        s.enabled,
    )
}

/// A listed entry as plain values.
pub open spec fn entry_view(e: (&str, &str, bool)) -> (Seq<char>, Seq<char>, bool) {
    (e.0@, e.1@, e.2)
}

/// The loaded skills, one per name, in the order they were added.
#[derive(Debug)]
pub struct SkillManager {
    skills: Vec<Skill>,
}

impl View for SkillManager {
    type V = Seq<SkillView>;

    closed spec fn view(&self) -> Seq<SkillView> {
        self.skills@.map_values(|s: Skill| s@)
    }
}

impl SkillManager {
    /// Names are unique.
    pub open spec fn wf(&self) -> bool {
        names_unique(self@)
    }

    /// A manager without skills.
    pub fn new() -> (r: SkillManager)
        ensures
            r.wf(),
            r@ == Seq::<SkillView>::empty(),
    {
        let r = SkillManager { skills: Vec::new() };
        assert(r@ =~= Seq::<SkillView>::empty());
        r
    }

    /// Adds `skill`; a skill of the same name is replaced in its place.
    pub fn insert(&mut self, skill: Skill)
        requires
            old(self).wf(),
        ensures
            final(self).wf(),
            final(self)@ == insert_spec(old(self)@, skill@),
    {
        let n = self.skills.len();
        let ghost before = self@;
        let mut i: usize = 0;
        while i < n
            invariant
                n == self.skills@.len(),
                self@ == before,
                before == old(self)@,
                names_unique(before),
                i <= n,
                forall|j: int| 0 <= j < i ==> before[j].name != skill@.name,
            decreases n - i,
        {
            if str_eq(self.skills[i].name.as_str(), skill.name.as_str()) {
                let ghost sv = skill@;
                let ghost old_skills = self.skills@;
                assert(before[i as int] == old_skills[i as int]@);
                self.skills.set(i, skill);
                proof {
                    assert(self.skills@ == old_skills.update(i as int, self.skills@[i as int]));
                    assert(has_skill(before, sv.name));
                    assert(self@ =~= before.map_values(
                        |t: SkillView| if t.name == sv.name { sv } else { t },
                    ));
                }
                return;
            }
            i = i + 1;
        }
        let ghost sv = skill@;
        self.skills.push(skill);
        proof {
            assert(self@ =~= before.push(sv));
        }
    }

    /// A manager holding `skills`, added in order (a later skill replaces
    /// an earlier one of the same name).
    pub fn from_skills(skills: Vec<Skill>) -> (r: SkillManager)
        ensures
            r.wf(),
            r@ == insert_all_spec(Seq::empty(), skills@.map_values(|s: Skill| s@)),
    {
        let mut m = SkillManager::new();
        let ghost all = skills@.map_values(|s: Skill| s@);
        let mut rest = skills;
        let mut taken: Vec<Skill> = Vec::new();
        assert(all.take(0) =~= Seq::<SkillView>::empty());
        while rest.len() > 0
            invariant
                m.wf(),
                m@ == insert_all_spec(Seq::empty(), all.take(all.len() - rest@.len())),
                rest@.len() <= all.len(),
                forall|k: int| 0 <= k < rest@.len() ==> #[trigger] rest@[k]@ == all[all.len() - rest@.len() + k],
            decreases rest@.len(),
        {
            let s = rest.remove(0);
            let ghost done = all.len() - rest@.len() - 1;
            assert(s@ == all[done]);
            assert(all.take(done + 1).drop_last() =~= all.take(done));
            m.insert(s);
            assert forall|k: int| 0 <= k < rest@.len() implies #[trigger] rest@[k]@ == all[all.len() - rest@.len() + k] by {
                assert(rest@[k]@ == all[all.len() - (rest@.len() + 1) + (k + 1)]);
            }
        }
        assert(all.take(all.len() as int) =~= all);
        m
    }

    /// Splits a skill file, after dropping its leading white space, into
    /// the YAML between an opening `---` and the first later line that
    /// starts with `---`, and the text after that line's `---`. A file that
    /// does not open with `---` is all body.
    pub fn parse_frontmatter(content: &str) -> (r: Result<Frontmatter, SkillError>)
        ensures
            match frontmatter_spec(content@) {
                None => r is Err,
                Some((yaml, body)) => r matches Ok(fm) && opt_text(fm.yaml) == yaml && fm.body@
                    == body,
            },
    {
        let content = trim_start(content);
        proof {
            reveal_strlit("---");
            reveal_strlit("\n---");
        }
        if !starts_with(content, "---") {
            return Ok(Frontmatter { yaml: None, body: content.to_owned() });
        }
        let n = content.unicode_len();
        let rest = content.substring_char(3, n);
        match find(rest, "\n---") {
            None => Err(SkillError::FrontmatterNotClosed),
            Some(end) => {
                proof {
                    crate::text::lemma_first_occurrence(rest@, "\n---"@);
                }
                let m = rest.unicode_len();
                let yaml = substring(rest, 0, end);
                let body = substring(rest, end + 4, m);
                Ok(Frontmatter { yaml: Some(yaml), body })
            },
        }
    }

    /// Whether some skill is on.
    fn any_on(&self) -> (r: bool)
        ensures
            r == any_enabled(self@),
    {
        let n = self.skills.len();
        let mut i: usize = 0;
        while i < n
            invariant
                n == self@.len(),
                i <= n,
                forall|j: int| 0 <= j < i ==> !self@[j].enabled,
            decreases n - i,
        {
            if self.skills[i].enabled {
                assert(self@[i as int].enabled);
                return true;
            }
            i = i + 1;
        }
        false
    }

    /// The system prompt: `base_prompt`, followed, when any skill is on,
    /// by a `# Skills` heading and each skill that is on, in order.
    pub fn build_system_prompt(&self, base_prompt: &str) -> (r: String)
        ensures
            r@ == system_prompt_spec(base_prompt@, self@),
    {
        if !self.any_on() {
            return base_prompt.to_owned();
        }
        let mut prompt = base_prompt.to_owned();
        prompt.append("\n\n# Skills\n");
        let n = self.skills.len();
        let ghost head = base_prompt@ + "\n\n# Skills\n"@;
        assert(self@.take(0) =~= Seq::<SkillView>::empty());
        assert(prompt@ =~= head + sections_spec(self@.take(0)));
        for i in 0..n
            invariant
                n == self@.len(),
                prompt@ == head + sections_spec(self@.take(i as int)),
        {
            let skill = &self.skills[i];
            let ghost before = prompt@;
            if skill.enabled {
                prompt.append("\n## ");
                prompt.append(skill.name.as_str());
                prompt.append("\n");
                match &skill.description {
                    Some(d) => {
                        prompt.append(d.as_str());
                        prompt.append("\n");
                    },
                    None => {},
                }
                prompt.append("\n");
                prompt.append(skill.content.as_str());
                prompt.append("\n");
                assert(prompt@ =~= before + section_spec(self@[i as int]));
            }
            assert(self@.take(i + 1).drop_last() =~= self@.take(i as int));
            assert(self@.take(i + 1).last() == self@[i as int]);
        }
        assert(self@.take(n as int) =~= self@);
        prompt
    }

    /// Switches the skill called `name` on or off; whether it exists.
    fn set_enabled(&mut self, name: &str, on: bool) -> (found: bool)
        requires
            old(self).wf(),
        ensures
            final(self).wf(),
            found == has_skill(old(self)@, name@),
            final(self)@ == set_enabled_spec(old(self)@, name@, on),
    {
        let n = self.skills.len();
        let ghost before = self@;
        let mut i: usize = 0;
        while i < n
            invariant
                n == self.skills@.len(),
                self@ == before,
                before == old(self)@,
                names_unique(before),
                i <= n,
                forall|j: int| 0 <= j < i ==> before[j].name != name@,
            decreases n - i,
        {
            if str_eq(self.skills[i].name.as_str(), name) {
                let ghost old_skills = self.skills@;
                assert(before[i as int] == old_skills[i as int]@);
                self.skills[i].enabled = on;
                proof {
                    assert(before[i as int].name == name@);
                    assert(has_skill(before, name@));
                    assert(self@ =~= set_enabled_spec(before, name@, on));
                }
                return true;
            }
            i = i + 1;
        }
        assert(self@ =~= set_enabled_spec(before, name@, on));
        false
    }

    /// Switches the skill called `name` on; `false` when there is none.
    pub fn enable(&mut self, name: &str) -> (found: bool)
        requires
            old(self).wf(),
        ensures
            final(self).wf(),
            found == has_skill(old(self)@, name@),
            final(self)@ == set_enabled_spec(old(self)@, name@, true),
    {
        self.set_enabled(name, true)
    }

    /// Switches the skill called `name` off; `false` when there is none.
    pub fn disable(&mut self, name: &str) -> (found: bool)
        requires
            old(self).wf(),
        ensures
            final(self).wf(),
            found == has_skill(old(self)@, name@),
            final(self)@ == set_enabled_spec(old(self)@, name@, false),
    {
        self.set_enabled(name, false)
    }

    /// Every skill as (name, description or `""`, whether it is on),
    /// sorted by name in the order of `str`'s `Ord`.
    pub fn list(&self) -> (r: Vec<(&str, &str, bool)>)
        requires
            self.wf(),
        ensures
            r@.len() == self@.len(),
            sorted_entries(entries_view(r@)),
            covers(entries_view(r@), self@, self@.len() as int),
    {
        let n = self.skills.len();
        let mut r: Vec<(&str, &str, bool)> = Vec::new();
        let mut i: usize = 0;
        proof {
            reveal(sorted_entries);
            reveal(covers);
        }
        assert(sorted_entries(entries_view(r@)));
        assert(covers(entries_view(r@), self@, 0));
        while i < n
            invariant
                n == self@.len(),
                i <= n,
                names_unique(self@),
                r@.len() == i,
                sorted_entries(entries_view(r@)),
                covers(entries_view(r@), self@, i as int),
            decreases n - i,
        {
            let skill = &self.skills[i];
            let desc: &str = match &skill.description {
                Some(d) => d.as_str(),
                None => "",
            };
            proof {
                reveal_strlit("");
            }
            let e = (skill.name.as_str(), desc, skill.enabled);
            assert(entry_view(e) == list_entry(self@[i as int]));
            let mut p: usize = 0;
            while p < r.len() && text_less(r[p].0, e.0)
                invariant
                    p <= r@.len(),
                    forall|q: int| 0 <= q < p ==> text_lt(#[trigger] r@[q].0@, e.0@),
                decreases r@.len() - p,
            {
                p = p + 1;
            }
            let ghost old_r = r@;
            proof {
                let rv = entries_view(old_r);
                assert(rv.len() == old_r.len());
                assert forall|q: int| 0 <= q < p implies text_lt(#[trigger] rv[q].0, entry_view(e).0) by {
                    assert(rv[q].0 == old_r[q].0@);
                }
                if p < rv.len() {
                    assert(rv[p as int].0 == old_r[p as int].0@);
                }
                lemma_list_insert_position(rv, self@, i as int, p as int, entry_view(e));
                lemma_list_insert_sorted(rv, p as int, entry_view(e));
                lemma_list_insert_covers(rv, self@, i as int, p as int, entry_view(e));
            }
            r.insert(p, e);
            assert(entries_view(r@) =~= entries_view(old_r).insert(p as int, entry_view(e)));
            i = i + 1;
        }
        r
    }
}

/// Listed entries as plain values.
pub open spec fn entries_view(r: Seq<(&str, &str, bool)>) -> Seq<(Seq<char>, Seq<char>, bool)> {
    r.map_values(|e: (&str, &str, bool)| entry_view(e))
}

/// Entries in strictly increasing order of name.
#[verifier::opaque]
pub open spec fn sorted_entries(r: Seq<(Seq<char>, Seq<char>, bool)>) -> bool {
    forall|a: int, b: int| 0 <= a < b < r.len() ==> text_lt(#[trigger] r[a].0, #[trigger] r[b].0)
}

/// `r` holds exactly the entries of the first `i` skills.
#[verifier::opaque]
pub open spec fn covers(r: Seq<(Seq<char>, Seq<char>, bool)>, skills: Seq<SkillView>, i: int) -> bool {
    &&& forall|k: int|
        0 <= k < r.len() ==> exists|j: int| 0 <= j < i && #[trigger] r[k] == list_entry(skills[j])
    &&& forall|j: int|
        0 <= j < i ==> exists|k: int| 0 <= k < r.len() && r[k] == list_entry(#[trigger] skills[j])
}

/// The entry of skill `i` differs in name from the entries of the skills
/// before it, and comes before every entry from `p` on.
proof fn lemma_list_insert_position(
    r: Seq<(Seq<char>, Seq<char>, bool)>,
    skills: Seq<SkillView>,
    i: int,
    p: int,
    e: (Seq<char>, Seq<char>, bool),
)
    requires
        0 <= i < skills.len(),
        names_unique(skills),
        sorted_entries(r),
        covers(r, skills, i),
        e == list_entry(skills[i]),
        0 <= p <= r.len(),
        p < r.len() ==> !text_lt(r[p].0, e.0),
    ensures
        forall|k: int| p <= k < r.len() ==> text_lt(e.0, #[trigger] r[k].0),
{
    reveal(sorted_entries);
    reveal(covers);
    assert forall|k: int| 0 <= k < r.len() implies #[trigger] r[k].0 != e.0 by {
        let j = choose|j: int| 0 <= j < i && r[k] == list_entry(skills[j]);
        assert(skills[j].name != skills[i].name);
    }
    if p < r.len() {
        lemma_text_lt_total(r[p].0, e.0);
        assert forall|k: int| p <= k < r.len() implies text_lt(e.0, #[trigger] r[k].0) by {
            if k > p {
                assert(text_lt(r[p].0, r[k].0));
                lemma_text_lt_transitive(e.0, r[p].0, r[k].0);
            }
        }
    }
}

/// Inserting, at `p`, an entry that comes after those before `p` and
/// before those from `p` on keeps the entries sorted.
proof fn lemma_list_insert_sorted(
    r: Seq<(Seq<char>, Seq<char>, bool)>,
    p: int,
    e: (Seq<char>, Seq<char>, bool),
)
    requires
        sorted_entries(r),
        0 <= p <= r.len(),
        forall|q: int| 0 <= q < p ==> text_lt(#[trigger] r[q].0, e.0),
        forall|k: int| p <= k < r.len() ==> text_lt(e.0, #[trigger] r[k].0),
    ensures
        sorted_entries(r.insert(p, e)),
{
    reveal(sorted_entries);
    reveal(covers);
    let r2 = r.insert(p, e);
    assert forall|a: int, b: int| 0 <= a < b < r2.len() implies text_lt(
        #[trigger] r2[a].0,
        #[trigger] r2[b].0,
    ) by {
        if b < p {
            assert(text_lt(r[a].0, r[b].0));
        } else if b == p {
            assert(r2[a] == r[a]);
        } else if a < p {
            assert(r2[b] == r[b - 1]);
            assert(text_lt(r[a].0, e.0));
            assert(text_lt(e.0, r[b - 1].0));
            lemma_text_lt_transitive(r[a].0, e.0, r[b - 1].0);
        } else if a == p {
            assert(r2[b] == r[b - 1]);
        } else {
            assert(text_lt(r[a - 1].0, r[b - 1].0));
        }
    }
}

/// Inserting the entry of skill `i` covers one more skill.
proof fn lemma_list_insert_covers(
    r: Seq<(Seq<char>, Seq<char>, bool)>,
    skills: Seq<SkillView>,
    i: int,
    p: int,
    e: (Seq<char>, Seq<char>, bool),
)
    requires
        0 <= i < skills.len(),
        covers(r, skills, i),
        e == list_entry(skills[i]),
        0 <= p <= r.len(),
    ensures
        covers(r.insert(p, e), skills, i + 1),
{
    reveal(sorted_entries);
    reveal(covers);
    let r2 = r.insert(p, e);
    assert forall|k: int| 0 <= k < r2.len() implies exists|j: int|
        0 <= j < i + 1 && #[trigger] r2[k] == list_entry(skills[j]) by {
        if k < p {
            let j = choose|j: int| 0 <= j < i && r[k] == list_entry(skills[j]);
            assert(r2[k] == list_entry(skills[j]));
        } else if k == p {
            assert(r2[k] == list_entry(skills[i]));
        } else {
            let j = choose|j: int| 0 <= j < i && r[k - 1] == list_entry(skills[j]);
            assert(r2[k] == list_entry(skills[j]));
        }
    }
    assert forall|j: int| 0 <= j < i + 1 implies exists|k: int|
        0 <= k < r2.len() && r2[k] == list_entry(#[trigger] skills[j]) by {
        if j == i {
            assert(r2[p] == list_entry(skills[j]));
        } else {
            let k = choose|k: int| 0 <= k < r.len() && r[k] == list_entry(skills[j]);
            if k < p {
                assert(r2[k] == r[k]);
            } else {
                assert(r2[k + 1] == r[k]);
            }
        }
    }
}

/// Switching a skill twice leaves it as the second switch set it:
/// enabling is idempotent and disabling undoes enabling.
pub proof fn law_last_switch_wins(skills: Seq<SkillView>, name: Seq<char>, first: bool, second: bool)
    ensures
        set_enabled_spec(set_enabled_spec(skills, name, first), name, second) == set_enabled_spec(
            skills,
            name,
            second,
        ),
{
    assert(set_enabled_spec(set_enabled_spec(skills, name, first), name, second) =~= set_enabled_spec(
        skills,
        name,
        second,
    ));
}

/// Switching a skill changes nothing but that skill's switch: names,
/// order and every other skill stay, and names stay unique.
pub proof fn law_switch_changes_only_the_switch(skills: Seq<SkillView>, name: Seq<char>, on: bool)
    requires
        names_unique(skills),
    ensures
        set_enabled_spec(skills, name, on).len() == skills.len(),
        names_unique(set_enabled_spec(skills, name, on)),
        has_skill(set_enabled_spec(skills, name, on), name) == has_skill(skills, name),
        forall|i: int|
            0 <= i < skills.len() ==> {
                let t = #[trigger] set_enabled_spec(skills, name, on)[i];
                if skills[i].name == name {
                    t == with_enabled(skills[i], on)
                } else {
                    t == skills[i]
                }
            },
{
    let t = set_enabled_spec(skills, name, on);
    assert forall|i: int| 0 <= i < skills.len() implies #[trigger] t[i].name == skills[i].name by {}
    if has_skill(skills, name) {
        let i = choose|i: int| 0 <= i < skills.len() && skills[i].name == name;
        assert(t[i].name == name);
    }
    if has_skill(t, name) {
        let i = choose|i: int| 0 <= i < t.len() && t[i].name == name;
        assert(skills[i].name == name);
    }
}

/// Adding a skill makes its name known with exactly that skill, leaves
/// every other skill in place, and keeps names unique.
pub proof fn law_insert_then_found(skills: Seq<SkillView>, s: SkillView)
    requires
        names_unique(skills),
    ensures
        names_unique(insert_spec(skills, s)),
        exists|i: int|
            0 <= i < insert_spec(skills, s).len() && #[trigger] insert_spec(skills, s)[i] == s,
        forall|i: int|
            0 <= i < skills.len() && skills[i].name != s.name ==> #[trigger] insert_spec(skills, s)[i]
                == skills[i],
        insert_spec(skills, s).len() == if has_skill(skills, s.name) {
            skills.len()
        } else {
            skills.len() + 1
        },
{
    let t = insert_spec(skills, s);
    if has_skill(skills, s.name) {
        let i = choose|i: int| 0 <= i < skills.len() && skills[i].name == s.name;
        assert(t[i] == s);
        assert forall|a: int| 0 <= a < t.len() implies #[trigger] t[a].name == skills[a].name by {}
    } else {
        assert(t[skills.len() as int] == s);
        assert forall|a: int| 0 <= a < skills.len() implies #[trigger] t[a] == skills[a] by {}
    }
}

/// The system prompt always starts with the base prompt.
pub proof fn law_prompt_starts_with_base(base: Seq<char>, skills: Seq<SkillView>)
    ensures
        has_prefix(system_prompt_spec(base, skills), base),
{
    let p = system_prompt_spec(base, skills);
    assert(p.take(base.len() as int) =~= base);
}

/// The section of a skill that is on occurs among the sections.
proof fn lemma_sections_contain(skills: Seq<SkillView>, i: int)
    requires
        0 <= i < skills.len(),
        skills[i].enabled,
    ensures
        occurs_in(sections_spec(skills), section_spec(skills[i])),
    decreases skills.len(),
{
    let rest = sections_spec(skills.drop_last());
    let sec = section_spec(skills[i]);
    if i == skills.len() - 1 {
        let whole = rest + sec;
        assert(whole.subrange(rest.len() as int, (rest.len() + sec.len()) as int) =~= sec);
        assert(occurs_at(whole, sec, rest.len() as int));
    } else {
        assert(skills.drop_last()[i] == skills[i]);
        lemma_sections_contain(skills.drop_last(), i);
        let k = choose|k: int| occurs_at(rest, sec, k);
        let tail = if skills.last().enabled {
            section_spec(skills.last())
        } else {
            Seq::empty()
        };
        let whole = rest + tail;
        assert(whole.subrange(k, k + sec.len()) =~= rest.subrange(k, k + sec.len()));
        assert(occurs_at(whole, sec, k));
    }
}

/// Every skill that is on contributes its section (its name, description
/// and content) to the system prompt.
pub proof fn law_enabled_skill_in_prompt(base: Seq<char>, skills: Seq<SkillView>, i: int)
    requires
        0 <= i < skills.len(),
        skills[i].enabled,
    ensures
        occurs_in(system_prompt_spec(base, skills), section_spec(skills[i])),
{
    lemma_sections_contain(skills, i);
    let sec = section_spec(skills[i]);
    let body = sections_spec(skills);
    let head = base + "\n\n# Skills\n"@;
    let k = choose|k: int| occurs_at(body, sec, k);
    let whole = head + body;
    assert(whole.subrange(head.len() + k, head.len() + k + sec.len()) =~= body.subrange(k, k + sec.len()));
    assert(occurs_at(whole, sec, head.len() + k));
}

/// After `/skill on <name>` finds its skill, the system prompt built
/// from the skills holds that skill's section.
pub proof fn law_enabled_skill_joins_prompt(base: Seq<char>, skills: Seq<SkillView>, name: Seq<char>)
    requires
        names_unique(skills),
        has_skill(skills, name),
    ensures
        exists|i: int|
            0 <= i < skills.len() && skills[i].name == name && occurs_in(
                system_prompt_spec(base, set_enabled_spec(skills, name, true)),
                section_spec(with_enabled(skills[i], true)),
            ),
{
    let i = choose|i: int| 0 <= i < skills.len() && skills[i].name == name;
    let t = set_enabled_spec(skills, name, true);
    assert(t[i] == with_enabled(skills[i], true));
    law_enabled_skill_in_prompt(base, t, i);
}

/// The sections depend only on the skills that are on.
proof fn lemma_sections_only_enabled(skills: Seq<SkillView>)
    ensures
        sections_spec(skills) == sections_spec(skills.filter(|s: SkillView| s.enabled)),
    decreases skills.len(),
{
    reveal_with_fuel(Seq::filter, 1);
    if skills.len() > 0 {
        lemma_sections_only_enabled(skills.drop_last());
        let f = skills.filter(|s: SkillView| s.enabled);
        let g = skills.drop_last().filter(|s: SkillView| s.enabled);
        if skills.last().enabled {
            assert(f.drop_last() =~= g);
            assert(f.last() == skills.last());
        } else {
            assert(f =~= g);
        }
    }
}

/// The system prompt depends only on the skills that are on: skills that
/// are off leave no trace in it.
pub proof fn law_prompt_ignores_disabled(base: Seq<char>, skills: Seq<SkillView>)
    ensures
        system_prompt_spec(base, skills) == system_prompt_spec(base, skills.filter(|s: SkillView| s.enabled)),
{
    let f = skills.filter(|s: SkillView| s.enabled);
    lemma_sections_only_enabled(skills);
    let pred = |s: SkillView| s.enabled;
    if any_enabled(skills) {
        let i = choose|i: int| 0 <= i < skills.len() && skills[i].enabled;
        skills.lemma_filter_contains(pred, i);
        assert(f.contains(skills[i]));
        let j = choose|j: int| 0 <= j < f.len() && f[j] == skills[i];
        assert(any_enabled(f));
    }
    if any_enabled(f) {
        let j = choose|j: int| 0 <= j < f.len() && f[j].enabled;
        skills.lemma_filter_len(pred);
        assert(skills.len() > 0);
        assert(any_enabled(skills)) by {
            if !any_enabled(skills) {
                assert forall|k: int| 0 <= k < skills.len() implies !pred(skills[k]) by {}
                skills.lemma_all_neg_filter_empty(pred);
            }
        }
    }
}

/// A skill file made of `---`, YAML, a line starting with `---`, and a
/// body, splits back into that YAML and that body, provided the YAML holds
/// no line that starts with `---` itself.
#[verifier::spinoff_prover]
#[verifier::rlimit(40)]
pub proof fn law_frontmatter_round_trip(yaml: Seq<char>, body: Seq<char>)
    requires
        !occurs_in(yaml + "\n--"@, "\n---"@),
    ensures
        frontmatter_spec("---"@ + yaml + "\n---"@ + body) == Some((Some(yaml), body)),
{
    reveal_strlit("---");
    reveal_strlit("\n---");
    reveal_strlit("\n--");
    let content = "---"@ + yaml + "\n---"@ + body;
    assert(!crate::text::is_ws(content[0]));
    assert(trim_start_spec(content) == content);
    assert(content.take(3) =~= "---"@);
    let rest = content.skip(3);
    assert(rest =~= yaml + "\n---"@ + body);
    assert(occurs_at(rest, "\n---"@, yaml.len() as int)) by {
        assert(rest.subrange(yaml.len() as int, yaml.len() + 4int) =~= "\n---"@);
    }
    assert forall|j: int| 0 <= j < yaml.len() implies !occurs_at(rest, "\n---"@, j) by {
        if occurs_at(rest, "\n---"@, j) {
            let pre = yaml + "\n--"@;
            assert(pre.subrange(j, j + 4) =~= rest.subrange(j, j + 4));
            assert(occurs_at(pre, "\n---"@, j));
        }
    }
    crate::text::lemma_first_occurrence(rest, "\n---"@);
    let e = first_occurrence(rest, "\n---"@)->0;
    assert(e == yaml.len());
    assert(rest.take(e) =~= yaml);
    assert(rest.skip(e + 4) =~= body);
}

/// A skill made by `Skill::new` keeps its body whole but for the white space
/// at both ends: its content is a stretch `body[i..j]` with nothing but
/// white space before `i` and from `j` on, and it starts and ends with a
/// character that is not white space; its name, description and switch are
/// the frontmatter's, or, without frontmatter, the folder's name, none, and
/// on; its directory is `path`.
pub proof fn law_skill_content_is_trimmed_body(meta: Option<SkillMeta>, body: Seq<char>, path: Seq<char>)
    ensures
        ({
            let sk = skill_spec(meta_view(meta), body, path);
            &&& exists|i: int, j: int|
                #![trigger body.subrange(i, j)]
                0 <= i <= j <= body.len() && sk.content == body.subrange(i, j) && (forall|k: int|
                    0 <= k < i ==> crate::text::is_ws(#[trigger] body[k])) && (forall|k: int|
                    j <= k < body.len() ==> crate::text::is_ws(#[trigger] body[k])) && (i < j
                    ==> !crate::text::is_ws(body[i]) && !crate::text::is_ws(body[j - 1]))
            &&& sk.path == path
            &&& meta matches Some(m) ==> sk.name == m.name@ && sk.description == opt_text(m.description)
                && sk.enabled == m.enabled
            &&& meta is None ==> sk.name == folder_name_spec(path) && sk.description is None && sk.enabled
        }),
{
    let (i, j) = crate::text::trim_bounds(body);
    let sk = skill_spec(meta_view(meta), body, path);
    assert(sk.content == body.subrange(i, j));
}

/// Switching a name that no skill has changes nothing.
proof fn lemma_switch_absent(skills: Seq<SkillView>, name: Seq<char>, on: bool)
    requires
        !has_skill(skills, name),
    ensures
        set_enabled_spec(skills, name, on) == skills,
{
    assert forall|i: int| 0 <= i < skills.len() implies skills[i].name != name by {
        if skills[i].name == name {
            assert(has_skill(skills, name));
        }
    }
    assert(set_enabled_spec(skills, name, on) =~= skills);
}

/// Switching off skill `i`, which is on, shortens the sections by exactly
/// its section.
proof fn lemma_sections_after_disable(skills: Seq<SkillView>, i: int)
    requires
        names_unique(skills),
        0 <= i < skills.len(),
        skills[i].enabled,
    ensures
        sections_spec(set_enabled_spec(skills, skills[i].name, false)).len() + section_spec(
            skills[i],
        ).len() == sections_spec(skills).len(),
    decreases skills.len(),
{
    let name = skills[i].name;
    let after = set_enabled_spec(skills, name, false);
    let rest = skills.drop_last();
    assert(after.drop_last() =~= set_enabled_spec(rest, name, false));
    if i == skills.len() - 1 {
        assert(!has_skill(rest, name)) by {
            if has_skill(rest, name) {
                let j = choose|j: int| 0 <= j < rest.len() && rest[j].name == name;
                assert(skills[j].name == skills[i].name);
            }
        }
        lemma_switch_absent(rest, name, false);
        assert(!after.last().enabled);
    } else {
        assert(rest[i] == skills[i]);
        assert(names_unique(rest));
        lemma_sections_after_disable(rest, i);
        assert(skills.last().name != name);
        assert(after.last() == skills.last());
    }
}

/// Switching off a skill that is on removes exactly its section from the
/// system prompt: the prompt becomes shorter by that section's length and
/// keeps the section of every skill still on, or, when no skill is left
/// on, becomes the base prompt.
pub proof fn law_disable_removes_section(base: Seq<char>, skills: Seq<SkillView>, i: int)
    requires
        names_unique(skills),
        0 <= i < skills.len(),
        skills[i].enabled,
    ensures
        ({
            let after = set_enabled_spec(skills, skills[i].name, false);
            &&& any_enabled(after) ==> system_prompt_spec(base, after).len() == system_prompt_spec(
                base,
                skills,
            ).len() - section_spec(skills[i]).len()
            &&& !any_enabled(after) ==> system_prompt_spec(base, after) == base
            &&& forall|j: int|
                0 <= j < after.len() && #[trigger] after[j].enabled ==> occurs_in(
                    system_prompt_spec(base, after),
                    section_spec(after[j]),
                )
        }),
{
    let after = set_enabled_spec(skills, skills[i].name, false);
    lemma_sections_after_disable(skills, i);
    assert(any_enabled(skills));
    assert forall|j: int| 0 <= j < after.len() && #[trigger] after[j].enabled implies occurs_in(
        system_prompt_spec(base, after),
        section_spec(after[j]),
    ) by {
        law_enabled_skill_in_prompt(base, after, j);
    }
}

} // verus!
