//! The application's state (apart from the product prices): the open
//! comands with their lines and payment, which comand is shown, the groups,
//! the page, and whether finishing a comand awaits confirmation.
use vstd::prelude::*;
use crate::comand::{Input, input_view, blank_input};
use crate::payment::Payment;
use crate::text::{chars_of, string_of, trim, trim_chars, strings_view};

verus! {

/// The pages of the application.
#[derive(PartialEq, Eq, Structural, Clone, Copy, Debug)]
pub enum Pages {
    Main,
    Configs,
    Backups,
    Stock,
}

impl Pages {
    /// The page shown first (`Default`).
    pub fn default() -> (res: Pages)
        ensures
            res == Pages::Main,
    {
        Pages::Main
    }
}

/// An input as text and number.
pub type InputModel = (Seq<char>, u32, Option<Seq<char>>);

/// An open comand: its name, its lines and its payment.
pub type ComandEntry = (String, Vec<Input>, Payment);

/// A comand as text.
pub type ComandModel = (Seq<char>, Seq<InputModel>, Payment);

pub open spec fn inputs_view(v: Seq<Input>) -> Seq<InputModel> {
    Seq::new(v.len(), |i: int| input_view(v[i]))
}

pub open spec fn comand_model(c: ComandEntry) -> ComandModel {
    (c.0@, inputs_view(c.1@), c.2)
}

pub open spec fn comands_model(v: Seq<ComandEntry>) -> Seq<ComandModel> {
    Seq::new(v.len(), |i: int| comand_model(v[i]))
}

/// The index of the comand named `k`.
pub open spec fn find_comand(cs: Seq<ComandModel>, k: Seq<char>) -> Option<int>
    decreases cs.len(),
{
    if cs.len() == 0 {
        None
    } else if cs.last().0 == k {
        Some(cs.len() - 1)
    } else {
        find_comand(cs.drop_last(), k)
    }
}

/// No two comands share a name.
pub open spec fn unique_names(cs: Seq<ComandModel>) -> bool {
    forall|i: int, j: int| 0 <= i < cs.len() && 0 <= j < cs.len() && i != j ==> cs[i].0 != cs[j].0
}

proof fn lemma_find_comand(cs: Seq<ComandModel>, k: Seq<char>)
    ensures
        find_comand(cs, k) matches Some(i) ==> 0 <= i < cs.len() && cs[i].0 == k,
        find_comand(cs, k) is None ==> forall|i: int| 0 <= i < cs.len() ==> cs[i].0 != k,
    decreases cs.len(),
{
    if cs.len() > 0 {
        lemma_find_comand(cs.drop_last(), k);
        if find_comand(cs, k) is None {
            assert forall|i: int| 0 <= i < cs.len() implies cs[i].0 != k by {
                if i < cs.len() - 1 {
                    assert(cs.drop_last()[i] == cs[i]);
                }
            }
        }
    }
}

/// What the screens ask of the state.
pub enum Actions {
    /// The product prices were replaced (they are kept beside this state).
    SetProducts,
    /// Adds a line to a comand, opening the comand when it is new.
    PushInput(String, Input),
    /// Replaces line `pos` of a comand.
    UpdateInput(String, Input, usize),
    /// Opens a comand (its name trimmed) with one fresh line, and shows it.
    PushComand(String),
    /// Shows another comand.
    ChangeSelectedComand(String),
    /// Closes a comand and shows the first one left, if any.
    RemoveComand(String),
    /// Asks for confirmation before finishing the comand.
    ConfirmFinalize,
    /// Shows a page.
    SetPage(Pages),
    /// Sets the payment of a comand.
    SetPayment(String, Payment),
    /// Replaces the groups.
    SetGroups(Vec<(String, Vec<String>)>),
}

/// The state apart from the product prices.
#[derive(Clone, Debug)]
pub struct ApplicationState {
    pub comands: Vec<ComandEntry>,
    pub selected_comand: Option<String>,
    pub confirm_finalize: bool,
    pub groups: Vec<(String, Vec<String>)>,
    pub pages: Pages,
}

/// The whole state as text and values.
pub struct StateModel {
    pub comands: Seq<ComandModel>,
    pub selected: Option<Seq<char>>,
    pub confirm_finalize: bool,
    pub groups: Seq<(Seq<char>, Seq<Seq<char>>)>,
    pub pages: Pages,
}

pub open spec fn groups_model(v: Seq<(String, Vec<String>)>) -> Seq<(Seq<char>, Seq<Seq<char>>)> {
    Seq::new(v.len(), |i: int| (v[i].0@, strings_view(v[i].1@)))
}

pub open spec fn opt_text(o: Option<String>) -> Option<Seq<char>> {
    match o {
        Some(s) => Some(s@),
        None => None,
    }
}

/// The state after an action. Every action first drops a pending
/// confirmation.
pub open spec fn next_state(s: StateModel, a: Actions) -> StateModel {
    let s = StateModel { confirm_finalize: false, ..s };
    match a {
        Actions::SetProducts => s,
        Actions::PushInput(name, input) => match find_comand(s.comands, name@) {
            Some(i) => StateModel {
                comands: s.comands.update(
                    i,
                    (s.comands[i].0, s.comands[i].1.push(input_view(input)), s.comands[i].2),
                ),
                ..s
            },
            None => StateModel {
                comands: s.comands.push((name@, seq![input_view(input)], Payment::NotSelected)),
                ..s
            },
        },
        Actions::UpdateInput(name, input, pos) => match find_comand(s.comands, name@) {
            Some(i) => StateModel {
                comands: s.comands.update(
                    i,
                    (s.comands[i].0, s.comands[i].1.update(pos as int, input_view(input)), s.comands[i].2),
                ),
                ..s
            },
            None => s,
        },
        Actions::PushComand(name) => {
            let t = trim(name@);
            if t.len() > 0 && find_comand(s.comands, t) is None {
                StateModel {
                    comands: s.comands.push((t, seq![blank_input()], Payment::NotSelected)),
                    selected: Some(t),
                    ..s
                }
            } else {
                s
            }
        },
        Actions::ChangeSelectedComand(name) => StateModel { selected: Some(name@), ..s },
        Actions::RemoveComand(name) => {
            let cs = match find_comand(s.comands, name@) {
                Some(i) => s.comands.remove(i),
                None => s.comands,
            };
            StateModel {
                comands: cs,
                selected: if cs.len() > 0 { Some(cs[0].0) } else { None },
                ..s
            }
        },
        Actions::ConfirmFinalize => StateModel { confirm_finalize: true, ..s },
        Actions::SetPage(page) => StateModel { pages: page, ..s },
        Actions::SetPayment(name, payment) => match find_comand(s.comands, name@) {
            Some(i) => StateModel {
                comands: s.comands.update(i, (s.comands[i].0, s.comands[i].1, payment)),
                ..s
            },
            None => s,
        },
        Actions::SetGroups(groups) => StateModel { groups: groups_model(groups@), ..s },
    }
}

/// The line to replace exists (replacing a missing line panics).
pub open spec fn action_valid(s: StateModel, a: Actions) -> bool {
    match a {
        Actions::UpdateInput(name, _, pos) => match find_comand(s.comands, name@) {
            Some(i) => pos < s.comands[i].1.len(),
            None => true,
        },
        _ => true,
    }
}

impl ApplicationState {
    /// The state as a model, field by field.
    pub open spec fn model(&self) -> StateModel {
        StateModel {
            comands: comands_model(self.comands@),
            selected: opt_text(self.selected_comand),
            confirm_finalize: self.confirm_finalize,
            groups: groups_model(self.groups@),
            pages: self.pages,
        }
    }

    pub open spec fn wf(&self) -> bool {
        unique_names(self.model().comands)
    }

    /// No comands, nothing shown, no groups, the main page (`Default`).
    pub fn default() -> (res: ApplicationState)
        ensures
            res.wf(),
            res.model() == (StateModel {
                comands: Seq::empty(),
                selected: None,
                confirm_finalize: false,
                groups: Seq::empty(),
                pages: Pages::Main,
            }),
    {
        let res = ApplicationState {
            comands: Vec::new(),
            selected_comand: None,
            confirm_finalize: false,
            groups: Vec::new(),
            pages: Pages::Main,
        };
        assert(res.model().comands =~= Seq::<ComandModel>::empty());
        assert(res.model().groups =~= Seq::<(Seq<char>, Seq<Seq<char>>)>::empty());
        res
    }

    /// The open comands, in the order they were opened.
    pub fn comands(&self) -> (res: &Vec<ComandEntry>)
        ensures
            comands_model(res@) == self.model().comands,
    {
        &self.comands
    }

    fn find(&self, name: &str) -> (res: Option<usize>)
        ensures
            res == (match find_comand(self.model().comands, name@) {
                Some(i) => Some(i as usize),
                None => None::<usize>,
            }),
            res matches Some(i) ==> i < self.comands.len(),
    {
        let k = name.to_owned();
        let ghost cs = self.model().comands;
        proof {
            lemma_find_comand(cs, name@);
        }
        let mut j = self.comands.len();
        assert(cs.take(j as int) =~= cs);
        while j > 0
            invariant
                j <= self.comands.len(),
                cs == self.model().comands,
                k@ == name@,
                find_comand(cs, name@) == find_comand(cs.take(j as int), name@),
            decreases j,
        {
            assert(cs.take(j as int).drop_last() =~= cs.take(j - 1));
            assert(cs.take(j as int).last() == cs[j - 1]);
            if self.comands[j - 1].0 == k {
                return Some(j - 1);
            }
            j -= 1;
        }
        None
    }

    /// The state after an action.
    pub fn reduce(self, action: Actions) -> (res: ApplicationState)
        requires
            self.wf(),
            action_valid(self.model(), action),
        ensures
            res.wf(),
            res.model() == next_state(self.model(), action),
    {
        let ghost m0 = StateModel { confirm_finalize: false, ..self.model() };
        let ghost cs = m0.comands;
        assert(cs == self.model().comands);
        let ghost a0 = action;
        let ghost m_in = self.model();
        let mut s = self;
        s.confirm_finalize = false;
        assert(s.model() == m0);
        match action {
            Actions::SetProducts => {
                assert(s.model() == next_state(m_in, a0));
            },
            Actions::PushInput(name, input) => {
                let ghost iv = input_view(input);
                proof {
                    lemma_find_comand(cs, name@);
                }
                match s.find(name.as_str()) {
                    Some(i) => {
                        let mut entry = s.comands.remove(i);
                        let ghost before = inputs_view(entry.1@);
                        entry.1.push(input);
                        assert(inputs_view(entry.1@) =~= before.push(iv));
                        s.comands.insert(i, entry);
                        assert(s.model().comands =~= cs.update(
                            i as int,
                            (cs[i as int].0, cs[i as int].1.push(iv), cs[i as int].2),
                        ));
                        proof {
                            lemma_update_names(cs, i as int, (cs[i as int].0, cs[i as int].1.push(iv), cs[i as int].2));
                        }
                    },
                    None => {
                        let ghost nv = name@;
                        let mut inputs: Vec<Input> = Vec::new();
                        inputs.push(input);
                        assert(inputs_view(inputs@) =~= seq![iv]);
                        s.comands.push((name, inputs, Payment::NotSelected));
                        assert(s.model().comands =~= cs.push((nv, seq![iv], Payment::NotSelected)));
                        proof {
                            lemma_find_comand(cs, nv);
                        }
                    },
                }
            },
            Actions::UpdateInput(name, input, pos) => {
                let ghost iv = input_view(input);
                proof {
                    lemma_find_comand(cs, name@);
                }
                match s.find(name.as_str()) {
                    Some(i) => {
                        let mut entry = s.comands.remove(i);
                        let ghost before = inputs_view(entry.1@);
                        assert(comand_model(entry) == cs[i as int]);
                        assert(a0 == Actions::UpdateInput(name, input, pos));
                        assert(action_valid(m_in, a0));
                        assert(find_comand(m_in.comands, name@) == Some(i as int));
                        assert(pos < m_in.comands[i as int].1.len());
                        assert(pos < before.len());
                        entry.1.set(pos, input);
                        assert(inputs_view(entry.1@) =~= before.update(pos as int, iv));
                        s.comands.insert(i, entry);
                        assert(s.model().comands =~= cs.update(
                            i as int,
                            (cs[i as int].0, cs[i as int].1.update(pos as int, iv), cs[i as int].2),
                        ));
                        proof {
                            lemma_update_names(cs, i as int, (cs[i as int].0, cs[i as int].1.update(pos as int, iv), cs[i as int].2));
                        }
                    },
                    None => {},
                }
            },
            Actions::PushComand(name) => {
                let c = chars_of(name.as_str());
                let t = trim_chars(&c);
                let trimmed = string_of(&t);
                if t.len() > 0 {
                    match s.find(trimmed.as_str()) {
                        Some(_) => {},
                        None => {
                            let ghost tv = trimmed@;
                            let mut inputs: Vec<Input> = Vec::new();
                            let blank = Input::default();
                            inputs.push(blank);
                            assert(inputs_view(inputs@) =~= seq![blank_input()]);
                            let shown = trimmed.clone();
                            s.comands.push((trimmed, inputs, Payment::NotSelected));
                            s.selected_comand = Some(shown);
                            assert(s.model().comands =~= cs.push((tv, seq![blank_input()], Payment::NotSelected)));
                            proof {
                                lemma_find_comand(cs, tv);
                            }
                        },
                    }
                }
            },
            Actions::ChangeSelectedComand(name) => {
                s.selected_comand = Some(name);
                assert(s.model() == next_state(m_in, a0));
            },
            Actions::RemoveComand(name) => {
                proof {
                    lemma_find_comand(cs, name@);
                }
                match s.find(name.as_str()) {
                    Some(i) => {
                        s.comands.remove(i);
                        assert(s.model().comands =~= cs.remove(i as int));
                    },
                    None => {},
                }
                if s.comands.len() > 0 {
                    s.selected_comand = Some(s.comands[0].0.clone());
                } else {
                    s.selected_comand = None;
                }
                assert(s.model() == next_state(m_in, a0));
            },
            Actions::ConfirmFinalize => {
                s.confirm_finalize = true;
                assert(s.model() == next_state(m_in, a0));
            },
            Actions::SetPage(page) => {
                s.pages = page;
                assert(s.model() == next_state(m_in, a0));
            },
            Actions::SetPayment(name, payment) => {
                proof {
                    lemma_find_comand(cs, name@);
                }
                match s.find(name.as_str()) {
                    Some(i) => {
                        let mut entry = s.comands.remove(i);
                        entry.2 = payment;
                        s.comands.insert(i, entry);
                        assert(s.model().comands =~= cs.update(i as int, (cs[i as int].0, cs[i as int].1, payment)));
                        proof {
                            lemma_update_names(cs, i as int, (cs[i as int].0, cs[i as int].1, payment));
                        }
                    },
                    None => {},
                }
            },
            Actions::SetGroups(groups) => {
                s.groups = groups;
                assert(s.model() == next_state(m_in, a0));
            },
        }
        assert(s.model() == next_state(m_in, a0));
        s
    }
}

/// A confirmation is pending after an action exactly when the action asked
/// for it.
pub proof fn law_confirmation_only_when_asked(s: StateModel, a: Actions)
    ensures
        next_state(s, a).confirm_finalize <==> a is ConfirmFinalize,
{
}

/// Opening a comand under a new, non-blank name opens it with one fresh
/// line, unpaid, and shows it.
pub proof fn law_push_comand_opens(s: StateModel, name: String)
    requires
        trim(name@).len() > 0,
        find_comand(s.comands, trim(name@)) is None,
    ensures
        ({
            let n = next_state(s, Actions::PushComand(name));
            &&& n.selected == Some(trim(name@))
            &&& find_comand(n.comands, trim(name@)) == Some((n.comands.len() - 1) as int)
            &&& n.comands.last() == (trim(name@), seq![blank_input()], Payment::NotSelected)
        }),
{
}

/// Closing a comand closes it, and the comand shown afterwards, if any, is
/// an open one.
pub proof fn law_remove_comand_closes(s: StateModel, name: String)
    requires
        unique_names(s.comands),
    ensures
        ({
            let n = next_state(s, Actions::RemoveComand(name));
            &&& find_comand(n.comands, name@) is None
            &&& match n.selected {
                Some(k) => find_comand(n.comands, k) is Some,
                None => n.comands.len() == 0,
            }
        }),
{
    let n = next_state(s, Actions::RemoveComand(name));
    lemma_find_comand(s.comands, name@);
    lemma_find_comand(n.comands, name@);
    if find_comand(n.comands, name@) is Some {
        let j = find_comand(n.comands, name@)->0;
        let i = find_comand(s.comands, name@);
        match i {
            Some(i) => {
                if j < i {
                    assert(n.comands[j] == s.comands[j]);
                } else {
                    assert(n.comands[j] == s.comands[j + 1]);
                }
            },
            None => {},
        }
    }
    if n.comands.len() > 0 {
        lemma_find_comand(n.comands, n.comands[0].0);
    }
}

/// Replacing a comand by one of the same name keeps the names unique.
proof fn lemma_update_names(cs: Seq<ComandModel>, i: int, c: ComandModel)
    requires
        unique_names(cs),
        0 <= i < cs.len(),
        c.0 == cs[i].0,
    ensures
        unique_names(cs.update(i, c)),
{
    let u = cs.update(i, c);
    assert forall|a: int, b: int| 0 <= a < u.len() && 0 <= b < u.len() && a != b implies u[a].0 != u[b].0 by {
        assert(u[a].0 == cs[a].0);
        assert(u[b].0 == cs[b].0);
    }
}

/// Adding a line to an open comand appends it to that comand's lines and
/// leaves every other comand, the shown comand, the groups and the page as
/// they were; adding one to a comand that is not open opens it, unpaid, at
/// the end with that one line.
pub proof fn law_push_input_targets_its_comand(s: StateModel, name: String, input: Input)
    requires
        unique_names(s.comands),
    ensures
        ({
            let n = next_state(s, Actions::PushInput(name, input));
            &&& n.selected == s.selected
            &&& n.groups == s.groups
            &&& n.pages == s.pages
            &&& (exists|j: int| 0 <= j < s.comands.len() && s.comands[j].0 == name@) ==> {
                &&& n.comands.len() == s.comands.len()
                &&& forall|j: int| 0 <= j < s.comands.len() ==> #[trigger] n.comands[j] == if s.comands[j].0
                    == name@ {
                    (s.comands[j].0, s.comands[j].1.push(input_view(input)), s.comands[j].2)
                } else {
                    s.comands[j]
                }
            }
            &&& (forall|j: int| 0 <= j < s.comands.len() ==> s.comands[j].0 != name@) ==> n.comands
                == s.comands.push((name@, seq![input_view(input)], Payment::NotSelected))
        }),
{
    lemma_find_comand(s.comands, name@);
    if let Some(i) = find_comand(s.comands, name@) {
        let n = next_state(s, Actions::PushInput(name, input));
        assert forall|j: int| 0 <= j < s.comands.len() implies #[trigger] n.comands[j] == if s.comands[j].0
            == name@ {
            (s.comands[j].0, s.comands[j].1.push(input_view(input)), s.comands[j].2)
        } else {
            s.comands[j]
        } by {
            if j != i {
                assert(s.comands[j].0 != s.comands[i].0);
            }
        }
    }
}

/// Replacing line `pos` of an open comand changes that line of that comand
/// only; replacing one of a comand that is not open changes no comand.
pub proof fn law_update_input_targets_its_line(s: StateModel, name: String, input: Input, pos: usize)
    requires
        unique_names(s.comands),
    ensures
        ({
            let n = next_state(s, Actions::UpdateInput(name, input, pos));
            &&& n.comands.len() == s.comands.len()
            &&& n.selected == s.selected
            &&& forall|j: int| 0 <= j < s.comands.len() ==> #[trigger] n.comands[j] == if s.comands[j].0
                == name@ {
                (s.comands[j].0, s.comands[j].1.update(pos as int, input_view(input)), s.comands[j].2)
            } else {
                s.comands[j]
            }
        }),
{
    lemma_find_comand(s.comands, name@);
    let n = next_state(s, Actions::UpdateInput(name, input, pos));
    if let Some(i) = find_comand(s.comands, name@) {
        assert forall|j: int| 0 <= j < s.comands.len() implies #[trigger] n.comands[j] == if s.comands[j].0
            == name@ {
            (s.comands[j].0, s.comands[j].1.update(pos as int, input_view(input)), s.comands[j].2)
        } else {
            s.comands[j]
        } by {
            if j != i {
                assert(s.comands[j].0 != s.comands[i].0);
            }
        }
    }
}

/// Setting the payment of a comand sets it on the comand of that name only
/// and keeps every comand's lines.
pub proof fn law_set_payment_targets_its_comand(s: StateModel, name: String, payment: Payment)
    requires
        unique_names(s.comands),
    ensures
        ({
            let n = next_state(s, Actions::SetPayment(name, payment));
            &&& n.comands.len() == s.comands.len()
            &&& forall|j: int| 0 <= j < s.comands.len() ==> #[trigger] n.comands[j] == if s.comands[j].0
                == name@ {
                (s.comands[j].0, s.comands[j].1, payment)
            } else {
                s.comands[j]
            }
        }),
{
    lemma_find_comand(s.comands, name@);
    let n = next_state(s, Actions::SetPayment(name, payment));
    if let Some(i) = find_comand(s.comands, name@) {
        assert forall|j: int| 0 <= j < s.comands.len() implies #[trigger] n.comands[j] == if s.comands[j].0
            == name@ {
            (s.comands[j].0, s.comands[j].1, payment)
        } else {
            s.comands[j]
        } by {
            if j != i {
                assert(s.comands[j].0 != s.comands[i].0);
            }
        }
    }
}

} // verus!
