//! The table from network flows to the processes that own them, kept up to
//! date from flow events, and the process names it yields.

use vstd::prelude::*;
use crate::assoc::{
    assoc_map, key_at, keys_distinct, lemma_assoc_absent, lemma_assoc_contains, lemma_assoc_empty,
    lemma_assoc_index, lemma_assoc_push, lemma_assoc_remove, lemma_assoc_update,
};
use crate::packet::FlowKey;
use crate::text::{
    has_no_backslash, lemma_last_path_segment_after_backslash, file_name_of, format_pid_label, last_path_segment, lemma_seq_less_total,
    lemma_seq_less_transitive, pid_label, seq_less, seq_starts_with, starts_with, str_less,
};

verus! {

/// The process behind a flow: its id and its image name.
#[derive(Clone, Debug)]
pub struct ProcessInfo {
    pub pid: u32,
    pub name: String,
}

impl View for ProcessInfo {
    type V = (u32, Seq<char>);

    open spec fn view(&self) -> (u32, Seq<char>) {
        (self.pid, self.name@)
    }
}

/// The flows that are open, each with the process that owns it.
pub struct FlowTable {
    entries: Vec<(FlowKey, ProcessInfo)>,
}

/// The names of the processes that own a flow in `flows`.
pub open spec fn process_names(flows: Map<FlowKey, (u32, Seq<char>)>) -> Set<Seq<char>> {
    Set::new(|name: Seq<char>| exists|k: FlowKey| flows.contains_key(k) && flows[k].1 == name)
}

/// The views of a sequence of strings.
pub open spec fn string_views(v: Seq<String>) -> Seq<Seq<char>> {
    v.map_values(|s: String| s@)
}

/// Every name in `names` reads less than the ones after it, so the names are
/// in ascending order and none occurs twice.
pub open spec fn strictly_ascending(names: Seq<Seq<char>>) -> bool {
    forall|a: int, b: int| 0 <= a < b < names.len() ==> seq_less(names[a], names[b])
}

impl View for FlowTable {
    type V = Map<FlowKey, (u32, Seq<char>)>;

    closed spec fn view(&self) -> Map<FlowKey, (u32, Seq<char>)> {
        assoc_map(self.entry_views())
    }
}

impl FlowTable {
    closed spec fn views_of(entries: Seq<(FlowKey, ProcessInfo)>) -> Seq<
        (FlowKey, (u32, Seq<char>)),
    > {
        entries.map_values(|e: (FlowKey, ProcessInfo)| (e.0, e.1@))
    }

    closed spec fn entry_views(&self) -> Seq<(FlowKey, (u32, Seq<char>))> {
        Self::views_of(self.entries@)
    }

    /// The table's invariant: each flow occurs once.
    #[verifier::type_invariant]
    closed spec fn wf(&self) -> bool {
        keys_distinct(self.entry_views())
    }

    /// An empty table.
    pub fn new() -> (t: Self)
        ensures
            t@ == Map::<FlowKey, (u32, Seq<char>)>::empty(),
    {
        let t = FlowTable { entries: Vec::new() };
        proof {
            assert(t.entry_views() =~= Seq::<(FlowKey, (u32, Seq<char>))>::empty());
            lemma_assoc_empty::<FlowKey, (u32, Seq<char>)>();
        }
        t
    }

    /// Where `key` stands in the table, if it does.
    fn position(&self, key: &FlowKey) -> (r: Option<usize>)
        ensures
            match r {
                Some(i) => i < self.entries@.len() && self.entries@[i as int].0 == *key,
                None => !self@.contains_key(*key),
            },
    {
        proof {
            use_type_invariant(self);
        }
        let mut i: usize = 0;
        while i < self.entries.len()
            invariant
                i <= self.entries@.len(),
                forall|j: int| 0 <= j < i ==> self.entries@[j].0 != *key,
            decreases self.entries@.len() - i,
        {
            if self.entries[i].0 == *key {
                return Some(i);
            }
            i = i + 1;
        }
        proof {
            assert forall|j: int| 0 <= j < self.entry_views().len() implies self.entry_views()[j].0
                != *key by {
                assert(self.entries@[j].0 != *key);
            }
            lemma_assoc_absent(self.entry_views(), *key);
        }
        None
    }

    /// The process that owns the flow `key`, if the table knows it.
    pub fn lookup(&self, key: &FlowKey) -> (r: Option<ProcessInfo>)
        ensures
            r is Some <==> self@.contains_key(*key),
            r is Some ==> r->0@ == self@[*key],
    {
        proof {
            use_type_invariant(self);
        }
        match self.position(key) {
            Some(i) => {
                proof {
                    lemma_assoc_index(self.entry_views(), i as int);
                }
                let info = &self.entries[i].1;
                Some(ProcessInfo { pid: info.pid, name: info.name.clone() })
            },
            None => None,
        }
    }

    /// Records that the flow `key` belongs to `info`, replacing what the
    /// table held for it.
    pub fn insert(&mut self, key: FlowKey, info: ProcessInfo)
        ensures
            final(self)@ == old(self)@.insert(key, info@),
    {
        proof {
            use_type_invariant(&*self);
        }
        let ghost v = info@;
        let ghost before = self.entry_views();
        let position: Option<usize> = self.position(&key);
        let mut entries: Vec<(FlowKey, ProcessInfo)> = Vec::new();
        std::mem::swap(&mut entries, &mut self.entries);
        match position {
            Some(i) => {
                proof {
                    lemma_assoc_update(before, i as int, v);
                }
                entries.set(i, (key, info));
                proof {
                    assert(Self::views_of(entries@) =~= before.update(i as int, (key, v)));
                }
            },
            None => {
                proof {
                    lemma_assoc_push(before, key, v);
                }
                entries.push((key, info));
                proof {
                    assert(Self::views_of(entries@) =~= before.push((key, v)));
                }
            },
        }
        self.entries = entries;
    }

    /// Forgets the flow `key`.
    pub fn remove(&mut self, key: &FlowKey)
        ensures
            final(self)@ == old(self)@.remove(*key),
    {
        proof {
            use_type_invariant(&*self);
        }
        match self.position(key) {
            Some(i) => {
                let ghost before = self.entry_views();
                let mut entries: Vec<(FlowKey, ProcessInfo)> = Vec::new();
                std::mem::swap(&mut entries, &mut self.entries);
                proof {
                    lemma_assoc_remove(before, i as int);
                }
                entries.remove(i);
                proof {
                    assert(Self::views_of(entries@) =~= before.remove(i as int));
                }
                self.entries = entries;
            },
            None => {
                proof {
                    assert(self@ =~= self@.remove(*key));
                }
            },
        }
    }

    /// Applies a flow event: a non-zero process id means the flow is open and
    /// owned by that process; zero means it has ended.
    pub fn on_flow_event(&mut self, key: FlowKey, pid: u32, name: String)
        ensures
            final(self)@ == flow_event_result(old(self)@, key, pid, name@),
    {
        if pid > 0 {
            self.insert(key, ProcessInfo { pid, name });
        } else {
            self.remove(&key);
        }
    }

    /// Forgets every flow.
    pub fn clear(&mut self)
        ensures
            final(self)@ == Map::<FlowKey, (u32, Seq<char>)>::empty(),
    {
        self.entries = Vec::new();
        proof {
            assert(self.entry_views() =~= Seq::<(FlowKey, (u32, Seq<char>))>::empty());
            lemma_assoc_empty::<FlowKey, (u32, Seq<char>)>();
        }
    }

    /// The names of the processes that own a flow, each once, in ascending
    /// order.
    pub fn active_process_names(&self) -> (r: Vec<String>)
        ensures
            strictly_ascending(string_views(r@)),
            string_views(r@).to_set() == process_names(self@),
    {
        proof {
            use_type_invariant(self);
        }
        let mut out: Vec<String> = Vec::new();
        let n: usize = self.entries.len();
        let ghost ev = self.entry_views();
        let mut i: usize = 0;
        while i < n
            invariant
                n == self.entries@.len(),
                ev == self.entry_views(),
                i <= n,
                strictly_ascending(string_views(out@)),
                forall|s: Seq<char>|
                    string_views(out@).contains(s) <==> exists|j: int|
                        0 <= j < i && #[trigger] ev[j].1.1 == s,
            decreases n - i,
        {
            let name: &String = &self.entries[i].1.name;
            assert(ev[i as int].1.1 == name@);
            let mut p: usize = 0;
            while p < out.len() && str_less(out[p].as_str(), name.as_str())
                invariant
                    p <= out@.len(),
                    forall|q: int| 0 <= q < p ==> seq_less(#[trigger] out@[q]@, name@),
                decreases out@.len() - p,
            {
                p = p + 1;
            }
            let ghost before = out@;
            if p < out.len() && out[p] == *name {
                assert(string_views(before)[p as int] == name@);
            } else {
                proof {
                    if p < before.len() {
                        lemma_seq_less_total(before[p as int]@, name@);
                    }
                }
                out.insert(p, name.clone());
                proof {
                    let sv = string_views(out@);
                    let bv = string_views(before);
                    assert(sv =~= bv.insert(p as int, name@));
                    assert forall|a: int, b: int| 0 <= a < b < sv.len() implies seq_less(
                        sv[a],
                        sv[b],
                    ) by {
                        if b == p {
                            assert(seq_less(before[a]@, name@));
                        } else if a == p {
                            assert(seq_less(name@, before[p as int]@));
                            if b - 1 > p {
                                lemma_seq_less_transitive(name@, bv[p as int], bv[b - 1]);
                            }
                        } else if a < p && b > p {
                            assert(seq_less(bv[a], bv[b - 1]));
                        } else if a > p {
                            assert(seq_less(bv[a - 1], bv[b - 1]));
                        }
                    }
                    assert forall|s: Seq<char>| sv.contains(s) <==> bv.contains(s) || s == name@ by {
                        if sv.contains(s) {
                            let x = choose|x: int| 0 <= x < sv.len() && sv[x] == s;
                            if x < p {
                                assert(bv[x] == s);
                            } else if x > p {
                                assert(bv[x - 1] == s);
                            }
                        }
                        if bv.contains(s) {
                            let x = choose|x: int| 0 <= x < bv.len() && bv[x] == s;
                            if x < p {
                                assert(sv[x] == s);
                            } else {
                                assert(sv[x + 1] == s);
                            }
                        }
                        if s == name@ {
                            assert(sv[p as int] == s);
                        }
                    }
                }
            }
            proof {
                assert forall|s: Seq<char>|
                    string_views(out@).contains(s) <==> exists|j: int|
                        0 <= j < i + 1 && #[trigger] ev[j].1.1 == s by {
                    if s == name@ {
                        assert(ev[i as int].1.1 == s);
                    }
                    if exists|j: int| 0 <= j < i + 1 && #[trigger] ev[j].1.1 == s {
                        let j = choose|j: int| 0 <= j < i + 1 && #[trigger] ev[j].1.1 == s;
                        if j < i {
                            assert(string_views(before).contains(s));
                        }
                    }
                }
            }
            i = i + 1;
        }
        proof {
            let sv = string_views(out@);
            assert forall|s: Seq<char>| sv.to_set().contains(s) <==> process_names(
                self@,
            ).contains(s) by {
                if sv.contains(s) {
                    let j = choose|j: int| 0 <= j < n && #[trigger] ev[j].1.1 == s;
                    lemma_assoc_index(ev, j);
                    assert(self@.contains_key(ev[j].0) && self@[ev[j].0].1 == s);
                }
                if process_names(self@).contains(s) {
                    let k = choose|k: FlowKey| self@.contains_key(k) && self@[k].1 == s;
                    lemma_assoc_contains(ev, k);
                    let j = choose|j: int| key_at(ev, k, j);
                    lemma_assoc_index(ev, j);
                    assert(ev[j].1.1 == s);
                }
            }
            assert(sv.to_set() =~= process_names(self@));
        }
        out
    }
}

/// The table after a flow event: a non-zero process id records the flow as
/// owned by that process, zero removes it.
pub open spec fn flow_event_result(
    flows: Map<FlowKey, (u32, Seq<char>)>,
    key: FlowKey,
    pid: u32,
    name: Seq<char>,
) -> Map<FlowKey, (u32, Seq<char>)> {
    if pid > 0 {
        flows.insert(key, (pid, name))
    } else {
        flows.remove(key)
    }
}

/// What a lookup answers after a flow event: the process just recorded for
/// that flow, nothing once it has ended, and for every other flow what it
/// answered before.
pub proof fn lemma_lookup_after_flow_event(
    flows: Map<FlowKey, (u32, Seq<char>)>,
    key: FlowKey,
    pid: u32,
    name: Seq<char>,
    other: FlowKey,
)
    requires
        other != key,
    ensures
        pid > 0 ==> flow_event_result(flows, key, pid, name).contains_key(key) && flow_event_result(
            flows,
            key,
            pid,
            name,
        )[key] == (pid, name),
        pid == 0 ==> !flow_event_result(flows, key, pid, name).contains_key(key),
        flow_event_result(flows, key, pid, name).contains_key(other) == flows.contains_key(other),
        flows.contains_key(other) ==> flow_event_result(flows, key, pid, name)[other]
            == flows[other],
{
}

/// The fixed name of a process id that has no image: 0 is the idle process,
/// 4 the kernel.
pub open spec fn reserved_name_of(pid: u32) -> Option<Seq<char>> {
    if pid == 0 {
        Some("System Idle"@)
    } else if pid == 4 {
        Some("System"@)
    } else {
        None
    }
}

/// The name of a process id that the system reserves, if it is one.
pub fn reserved_process_name(pid: u32) -> (r: Option<String>)
    ensures
        r is Some <==> reserved_name_of(pid) is Some,
        r is Some ==> r->0@ == reserved_name_of(pid)->0,
{
    if pid == 0 {
        Some(String::from_str("System Idle"))
    } else if pid == 4 {
        Some(String::from_str("System"))
    } else {
        None
    }
}

/// The name a process gets from the path of its image: the file name at the
/// end of the path, or `PID:` and its id when the path could not be read.
pub open spec fn name_from_image(pid: u32, image_path: Option<Seq<char>>) -> Seq<char> {
    match image_path {
        Some(path) => last_path_segment(path),
        None => pid_label(pid),
    }
}

/// The name of process `pid` given the full path of its image, where the
/// system could give it.
pub fn process_name_from_image(pid: u32, image_path: Option<&str>) -> (r: String)
    ensures
        r@ == name_from_image(
            pid,
            match image_path {
                Some(p) => Some(p@),
                None => None,
            },
        ),
{
    match image_path {
        Some(path) => file_name_of(path),
        None => format_pid_label(pid),
    }
}

/// Whether a process name can be picked for a rule: not the idle process,
/// not the kernel, and not a process whose image could not be read.
pub open spec fn is_selectable_name(name: Seq<char>) -> bool {
    name != "System Idle"@ && name != "System"@ && !seq_starts_with(name, "PID:"@)
}

/// The names of `names` that can be picked for a rule, in their order.
pub fn selectable_process_names(names: &Vec<String>) -> (r: Vec<String>)
    ensures
        string_views(r@) == string_views(names@).filter(|s: Seq<char>| is_selectable_name(s)),
{
    let idle: String = String::from_str("System Idle");
    let system: String = String::from_str("System");
    let mut out: Vec<String> = Vec::new();
    let ghost pred = |s: Seq<char>| is_selectable_name(s);
    let mut i: usize = 0;
    assert(string_views(names@).take(0) =~= Seq::<Seq<char>>::empty());
    while i < names.len()
        invariant
            i <= names@.len(),
            pred == (|s: Seq<char>| is_selectable_name(s)),
            idle@ == "System Idle"@,
            system@ == "System"@,
            string_views(out@) == string_views(names@).take(i as int).filter(pred),
        decreases names@.len() - i,
    {
        let name: &String = &names[i];
        let keep: bool = !(*name == idle) && !(*name == system) && !starts_with(
            name.as_str(),
            "PID:",
        );
        assert(string_views(names@)[i as int] == name@);
        assert(keep == is_selectable_name(name@));
        assert(keep == pred(name@));
        proof {
            assert(string_views(names@).take(i + 1) =~= string_views(names@).take(i as int).push(
                name@,
            ));
            string_views(names@).take(i as int).lemma_filter_push(name@, pred);
        }
        if keep {
            out.push(name.clone());
            assert(string_views(out@) =~= string_views(names@).take(i as int).filter(pred).push(
                name@,
            ));
        }
        i = i + 1;
    }
    assert(string_views(names@).take(names@.len() as int) =~= string_views(names@));
    out
}

/// Names that stand for no real image are never offered for a rule: those of
/// the two reserved process ids, and every `PID:` label of an unreadable
/// image.
pub proof fn lemma_unresolved_names_not_selectable(pid: u32)
    ensures
        !is_selectable_name(name_from_image(pid, None)),
        reserved_name_of(pid) is Some ==> !is_selectable_name(reserved_name_of(pid)->0),
{
    reveal_strlit("PID:");
    assert(pid_label(pid).subrange(0, 4) =~= "PID:"@);
}

/// A process is named after the file of its image: whatever folders the
/// path passes through, the name is the text after the last backslash, and
/// a path without a backslash is the name itself.
pub proof fn lemma_image_name_is_file_name(pid: u32, dir: Seq<char>, file: Seq<char>)
    requires
        has_no_backslash(file),
    ensures
        name_from_image(pid, Some(dir + seq!['\\'] + file)) == file,
        name_from_image(pid, Some(file)) == file,
{
    lemma_last_path_segment_after_backslash(dir, file);
}

/// Every name other than the idle process, the kernel and the `PID:`
/// labels is offered for a rule: it stays in what `selectable_process_names`
/// returns.
pub proof fn lemma_selectable_keeps_other_names(names: Seq<Seq<char>>, i: int)
    requires
        0 <= i < names.len(),
        names[i] != "System Idle"@,
        names[i] != "System"@,
        !(names[i].len() >= 4 && names[i][0] == 'P' && names[i][1] == 'I' && names[i][2] == 'D'
            && names[i][3] == ':'),
    ensures
        names.filter(|s: Seq<char>| is_selectable_name(s)).contains(names[i]),
{
    let n = names[i];
    reveal_strlit("PID:");
    if seq_starts_with(n, "PID:"@) {
        assert(n.subrange(0, 4)[0] == 'P');
        assert(n.subrange(0, 4)[1] == 'I');
        assert(n.subrange(0, 4)[2] == 'D');
        assert(n.subrange(0, 4)[3] == ':');
    }
    assert(is_selectable_name(n));
    names.lemma_filter_contains(|s: Seq<char>| is_selectable_name(s), i);
}

} // verus!
