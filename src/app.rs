use crate::der_parser::{
    decode_owned, owned_view, spec_decode_all, ASN1Error, OwnedObject, OwnedValue, SpecObject,
};
use crate::input::{decoded_input, try_decode_input};
use crate::tree::{
    add_path, advance_from, can_descend, contains_path, copy_path, get_object_by_path,
    index_of_path, is_constructed, last_visible, lemma_advance_exists, lemma_last_visible_exists,
    lemma_node_at_parent, lemma_node_at_push, lemma_node_at_top, next_sibling, node_at,
    path_after_down, path_after_up, path_set, prev_sibling, row_index, rows_view, scroll_for,
    toggled, visible_items, visible_rows, without_path,
};
use vstd::prelude::*;
use vstd::utf8::encode_utf8;

verus! {

/// A key, as the explorer tells keys apart.
#[derive(Debug, Clone, Copy, PartialEq, Eq, Structural)]
pub enum KeyCode {
    Char(char),
    Esc,
    Tab,
    Backspace,
    Enter,
    Other,
}

/// A key press, with whether Control was held.
#[derive(Debug, Clone, Copy, PartialEq, Eq, Structural)]
pub struct KeyInput {
    pub code: KeyCode,
    pub ctrl: bool,
}

/// Relies on `String::push`: appends `c`.
#[verifier::external_body]
fn push_char(s: &mut String, c: char)
    ensures
        final(s)@ == old(s)@.push(c),
{
    s.push(c)
}

/// Relies on `String::pop`: removes and returns the last character, if any.
#[verifier::external_body]
fn pop_char(s: &mut String) -> (r: Option<char>)
    ensures
        old(s)@.len() == 0 ==> r is None && final(s)@ == old(s)@,
        old(s)@.len() > 0 ==> r == Some(old(s)@.last()) && final(s)@ == old(s)@.drop_last(),
{
    s.pop()
}

/// Relies on `String::clear`: leaves the string empty.
#[verifier::external_body]
fn clear_string(s: &mut String)
    ensures
        final(s)@.len() == 0,
{
    s.clear()
}

/// The number of tree rows that a move scrolls for.
pub const MOVE_AREA_HEIGHT: usize = 10;

#[derive(Debug, Clone, Copy, PartialEq, Eq, Structural)]
pub enum AppMode {
    Input,
    View,
}

/// The whole state of the explorer: the text being edited, the decoded
/// tree, the selection, the collapsed nodes and the scroll offset.
pub struct App {
    pub mode: AppMode,
    pub input_buffer: String,
    pub should_quit: bool,
    pub buffer: Vec<u8>,
    pub parsed_objects: Vec<OwnedObject>,
    pub selected_path: Vec<usize>,
    pub collapsed_nodes: Vec<Vec<usize>>,
    pub show_help: bool,
    pub tree_scroll: usize,
    pub show_hex_modal: bool,
    pub copy_hex_to_clipboard: bool,
}

impl App {
    /// The decoded tree.
    pub open spec fn objects(&self) -> Seq<SpecObject> {
        owned_view(self.parsed_objects@)
    }

    /// The set of collapsed paths.
    pub open spec fn collapsed(&self) -> Set<Seq<usize>> {
        path_set(self.collapsed_nodes@)
    }

    /// The selection names a node whenever there is a tree, and only
    /// constructed nodes are collapsed.
    pub open spec fn nav_wf(&self) -> bool {
        &&& self.objects().len() > 0 ==> node_at(self.objects(), self.selected_path@) is Some
        &&& forall|p: Seq<usize>|
            #[trigger] self.collapsed().contains(p) ==> (node_at(self.objects(), p) matches Some(
                o,
            ) && is_constructed(o))
    }

    /// States that only the selection and the scroll offset differ between
    /// `self` and `other`.
    pub open spec fn same_but_selection(&self, other: &Self) -> bool {
        &&& self.mode == other.mode
        &&& self.input_buffer@ == other.input_buffer@
        &&& self.should_quit == other.should_quit
        &&& self.buffer@ == other.buffer@
        &&& self.parsed_objects@ == other.parsed_objects@
        &&& self.collapsed_nodes@ == other.collapsed_nodes@
        &&& self.show_help == other.show_help
        &&& self.show_hex_modal == other.show_hex_modal
        &&& self.copy_hex_to_clipboard == other.copy_hex_to_clipboard
    }

    /// States that only the collapsed nodes differ between `self` and
    /// `other`.
    pub open spec fn same_but_collapsed(&self, other: &Self) -> bool {
        &&& self.mode == other.mode
        &&& self.input_buffer@ == other.input_buffer@
        &&& self.should_quit == other.should_quit
        &&& self.buffer@ == other.buffer@
        &&& self.parsed_objects@ == other.parsed_objects@
        &&& self.selected_path@ == other.selected_path@
        &&& self.show_help == other.show_help
        &&& self.tree_scroll == other.tree_scroll
        &&& self.show_hex_modal == other.show_hex_modal
        &&& self.copy_hex_to_clipboard == other.copy_hex_to_clipboard
    }

    /// Well-formedness depends only on the tree, the selection and the
    /// collapsed nodes.
    pub proof fn lemma_nav_wf_frame(&self, other: &Self)
        ensures
            self.nav_wf() && self.parsed_objects@ == other.parsed_objects@
                && self.selected_path@ == other.selected_path@ && self.collapsed_nodes@
                == other.collapsed_nodes@ ==> other.nav_wf(),
    {
        if self.nav_wf() && self.parsed_objects@ == other.parsed_objects@
            && self.selected_path@ == other.selected_path@ && self.collapsed_nodes@
            == other.collapsed_nodes@ {
            assert forall|p: Seq<usize>| #[trigger]
                other.collapsed().contains(p) implies (node_at(other.objects(), p) matches Some(
                o,
            ) && is_constructed(o)) by {
                assert(self.collapsed().contains(p));
            }
        }
    }

    pub fn new() -> (r: Self)
        ensures
            r.mode == AppMode::Input,
            r.input_buffer@.len() == 0,
            !r.should_quit,
            r.buffer@.len() == 0,
            r.parsed_objects@.len() == 0,
            r.selected_path@.len() == 0,
            r.collapsed_nodes@.len() == 0,
            !r.show_help,
            r.tree_scroll == 0,
            !r.show_hex_modal,
            !r.copy_hex_to_clipboard,
            r.nav_wf(),
    {
        let r = Self {
            mode: AppMode::Input,
            input_buffer: String::new(),
            should_quit: false,
            parsed_objects: Vec::new(),
            selected_path: Vec::new(),
            buffer: Vec::new(),
            collapsed_nodes: Vec::new(),
            show_help: false,
            tree_scroll: 0,
            show_hex_modal: false,
            copy_hex_to_clipboard: false,
        };
        assert(r.collapsed() =~= Set::empty());
        r
    }

    /// The selected node, resolved against the tree.
    pub fn get_selected_object(&self) -> (r: Option<&OwnedObject>)
        ensures
            match node_at(self.objects(), self.selected_path@) {
                Some(o) => r matches Some(x) && x@ == o,
                None => r is None,
            },
    {
        get_object_by_path(self.parsed_objects.as_slice(), self.selected_path.as_slice())
    }

    /// Moves the selection down one visible row: into the first child of an
    /// expanded constructed node, else to the next sibling found walking up.
    /// At the last visible node the selection stays. Then scrolls.
    pub fn move_selection_down(&mut self, area_height: usize)
        ensures
            final(self).same_but_selection(old(self)),
            final(self).selected_path@ == path_after_down(
                old(self).objects(),
                old(self).collapsed(),
                old(self).selected_path@,
            ),
            final(self).tree_scroll == scroll_for(
                old(self).tree_scroll as int,
                row_index(
                    visible_rows(old(self).objects(), old(self).collapsed()),
                    final(self).selected_path@,
                ) as int,
                area_height as int,
                visible_rows(old(self).objects(), old(self).collapsed()).len() as int,
            ),
            old(self).nav_wf() ==> final(self).nav_wf(),
    {
        let ghost objs = self.objects();
        let ghost sel = self.selected_path@;
        let can_descend_here = match self.get_selected_object() {
            Some(o) => match &o.value {
                OwnedValue::Constructed(children) => children.len() > 0 && !contains_path(
                    &self.collapsed_nodes,
                    self.selected_path.as_slice(),
                ),
                OwnedValue::Primitive(_) => false,
            },
            None => false,
        };
        assert(can_descend_here == can_descend(objs, self.collapsed(), sel));
        if can_descend_here {
            proof {
                lemma_node_at_push(objs, sel, 0);
            }
            self.selected_path.push(0);
            self.update_tree_scroll(area_height);
            return;
        }
        let mut path = copy_path(&self.selected_path);
        while path.len() > 0
            invariant
                *self == *old(self),
                self.objects() == objs,
                self.selected_path@ == sel,
                advance_from(objs, sel) == advance_from(objs, path@),
                !can_descend(objs, self.collapsed(), sel),
            decreases path@.len(),
        {
            let n = path.len();
            let last = path[n - 1];
            if last < usize::MAX {
                let mut check = copy_path(&path);
                check.set(n - 1, last + 1);
                assert(check@ =~= next_sibling(path@));
                match get_object_by_path(self.parsed_objects.as_slice(), check.as_slice()) {
                    Some(_) => {
                        proof {
                            lemma_advance_exists(objs, sel);
                        }
                        assert(path@.last() == last);
                        assert(advance_from(objs, path@) == Some(check@));
                        self.selected_path = check;
                        self.update_tree_scroll(area_height);
                        return;
                    },
                    None => {},
                }
            }
            path.pop();
        }
        self.update_tree_scroll(area_height);
    }

    /// Moves the selection up one visible row: to the deepest last visible
    /// node under the previous sibling, else to the parent. At a first
    /// top-level node the selection stays. Then scrolls; with no selection
    /// at all nothing changes.
    pub fn move_selection_up(&mut self, area_height: usize)
        ensures
            final(self).same_but_selection(old(self)),
            final(self).selected_path@ == path_after_up(
                old(self).objects(),
                old(self).collapsed(),
                old(self).selected_path@,
            ),
            final(self).tree_scroll == if old(self).selected_path@.len() == 0 {
                old(self).tree_scroll as int
            } else {
                scroll_for(
                    old(self).tree_scroll as int,
                    row_index(
                        visible_rows(old(self).objects(), old(self).collapsed()),
                        final(self).selected_path@,
                    ) as int,
                    area_height as int,
                    visible_rows(old(self).objects(), old(self).collapsed()).len() as int,
                )
            },
            old(self).nav_wf() ==> final(self).nav_wf(),
    {
        let ghost objs = self.objects();
        let ghost cs = self.collapsed();
        let ghost sel = self.selected_path@;
        let n = self.selected_path.len();
        if n == 0 {
            return;
        }
        let last = self.selected_path[n - 1];
        if last > 0 {
            let mut q = copy_path(&self.selected_path);
            q.set(n - 1, last - 1);
            assert(q@ =~= prev_sibling(sel));
            match get_object_by_path(self.parsed_objects.as_slice(), q.as_slice()) {
                Some(start) => {
                    let ghost target = last_visible(start@, q@, cs);
                    proof {
                        lemma_last_visible_exists(objs, *start, q@, cs);
                    }
                    let mut node = start;
                    loop
                        invariant
                            *self == *old(self),
                            self.objects() == objs,
                            self.collapsed() == cs,
                            self.selected_path@ == sel,
                            node_at(objs, q@) == Some(node@),
                            last_visible(node@, q@, cs) == target,
                        ensures
                            *self == *old(self),
                            q@ == target,
                        decreases node@,
                    {
                        match &node.value {
                            OwnedValue::Constructed(children) => {
                                if children.len() > 0 && !contains_path(
                                    &self.collapsed_nodes,
                                    q.as_slice(),
                                ) {
                                    let k = children.len() - 1;
                                    proof {
                                        lemma_node_at_push(objs, q@, k);
                                        broadcast use vstd::std_specs::vec::axiom_vec_index_decreases;

                                        assert(decreases_to!(*children => children[k as int]));
                                        assert(decreases_to!(node@ => node@.value));
                                        assert(decreases_to!(node@.value => node@.value->Constructed_0));
                                    }
                                    q.push(k);
                                    node = &children[k];
                                } else {
                                    assert(last_visible(node@, q@, cs) == q@);
                                    break;
                                }
                            },
                            OwnedValue::Primitive(_) => {
                                assert(last_visible(node@, q@, cs) == q@);
                                break;
                            },
                        }
                    }
                    assert(q@ == target);
                    self.selected_path = q;
                    assert(self.selected_path@ == path_after_up(objs, cs, sel));
                },
                None => {},
            }
        } else if n > 1 {
            proof {
                lemma_node_at_parent(objs, sel);
            }
            self.selected_path.pop();
        }
        proof {
            if n == 1 && last > 0 {
                lemma_node_at_top(objs, last);
                lemma_node_at_top(objs, (last - 1) as usize);
                assert(sel =~= seq![last]);
                assert(prev_sibling(sel) =~= seq![(last - 1) as usize]);
            } else if n > 1 && last > 0 {
                lemma_node_at_parent(objs, sel);
                lemma_node_at_parent(objs, prev_sibling(sel));
                assert(prev_sibling(sel).drop_last() =~= sel.drop_last());
            }
        }
        self.update_tree_scroll(area_height);
    }

    /// Collapses the selected node if it is expanded, or expands it if it
    /// is collapsed. Nothing changes unless the node is constructed.
    pub fn toggle_collapse(&mut self)
        ensures
            final(self).same_but_collapsed(old(self)),
            final(self).collapsed() == toggled(
                old(self).objects(),
                old(self).collapsed(),
                old(self).selected_path@,
            ),
            old(self).nav_wf() ==> final(self).nav_wf(),
    {
        let constructed = match self.get_selected_object() {
            Some(o) => match &o.value {
                OwnedValue::Constructed(_) => true,
                OwnedValue::Primitive(_) => false,
            },
            None => false,
        };
        if constructed {
            if contains_path(&self.collapsed_nodes, self.selected_path.as_slice()) {
                self.collapsed_nodes = without_path(
                    &self.collapsed_nodes,
                    self.selected_path.as_slice(),
                );
            } else {
                let p = copy_path(&self.selected_path);
                add_path(&mut self.collapsed_nodes, p);
            }
        }
        proof {
            if old(self).nav_wf() {
                assert forall|p: Seq<usize>| #[trigger]
                    self.collapsed().contains(p) implies (node_at(self.objects(), p) matches Some(
                    o,
                ) && is_constructed(o)) by {
                    if p != self.selected_path@ {
                        assert(old(self).collapsed().contains(p));
                    }
                }
            }
        }
    }

    /// Decodes `bytes` and, on success, installs the new tree with the
    /// first top-level object selected, nothing collapsed, the view at the
    /// top and the view mode on. A failed decode changes nothing.
    pub fn load(&mut self, bytes: Vec<u8>) -> (r: Result<(), ASN1Error>)
        ensures
            match spec_decode_all(bytes@) {
                Ok(objs) => {
                    &&& r is Ok
                    &&& final(self).objects() == objs
                    &&& final(self).buffer@ == bytes@
                    &&& final(self).selected_path@ == seq![0usize]
                    &&& final(self).collapsed_nodes@.len() == 0
                    &&& final(self).tree_scroll == 0
                    &&& final(self).mode == AppMode::View
                    &&& final(self).input_buffer@ == old(self).input_buffer@
                    &&& final(self).should_quit == old(self).should_quit
                    &&& final(self).show_help == old(self).show_help
                    &&& final(self).show_hex_modal == old(self).show_hex_modal
                    &&& final(self).copy_hex_to_clipboard == old(self).copy_hex_to_clipboard
                    &&& final(self).nav_wf()
                },
                Err(e) => r == Err::<(), ASN1Error>(e) && *final(self) == *old(self),
            },
    {
        match decode_owned(bytes.as_slice()) {
            Ok(objs) => {
                self.parsed_objects = objs;
                self.buffer = bytes;
                let mut sel: Vec<usize> = Vec::new();
                sel.push(0);
                self.selected_path = sel;
                self.collapsed_nodes = Vec::new();
                self.tree_scroll = 0;
                self.mode = AppMode::View;
                proof {
                    lemma_node_at_top(self.objects(), 0);
                    assert(self.selected_path@ =~= seq![0usize]);
                    assert(self.collapsed() =~= Set::empty());
                }
                Ok(())
            },
            Err(e) => Err(e),
        }
    }

    /// States that `self` and `other` are the same but for the flags of the
    /// help and the hex view.
    pub open spec fn same_but_flags(&self, other: &Self) -> bool {
        &&& self.mode == other.mode
        &&& self.input_buffer@ == other.input_buffer@
        &&& self.should_quit == other.should_quit
        &&& self.buffer@ == other.buffer@
        &&& self.parsed_objects@ == other.parsed_objects@
        &&& self.selected_path@ == other.selected_path@
        &&& self.collapsed_nodes@ == other.collapsed_nodes@
        &&& self.tree_scroll == other.tree_scroll
    }

    /// Handles one key press. An open help closes on any key. In the hex
    /// view, Control-C asks for a copy. In input mode keys edit the text,
    /// Control-U clears it, Control-R decodes it into a new tree, and Tab or
    /// Esc switch to view mode. In view mode `j` and `k` move the selection,
    /// `h` and `l` collapse or expand, `x` and Esc open and close the hex
    /// view, `i` and Tab switch to input mode, and `q` quits.
    pub fn handle_input(&mut self, key: KeyInput)
        ensures
            old(self).show_help ==> final(self).same_but_flags(old(self)) && !final(self).show_help
                && final(self).show_hex_modal == old(self).show_hex_modal
                && final(self).copy_hex_to_clipboard == old(self).copy_hex_to_clipboard,
            !old(self).show_help && old(self).show_hex_modal && key.code == KeyCode::Char('c')
                && key.ctrl ==> final(self).same_but_flags(old(self))
                && final(self).copy_hex_to_clipboard && final(self).show_hex_modal
                && !final(self).show_help,
            !old(self).show_help && !(old(self).show_hex_modal && key.code == KeyCode::Char('c')
                && key.ctrl) ==> !final(self).copy_hex_to_clipboard,
            !old(self).show_help && !(old(self).show_hex_modal && key.code == KeyCode::Char('c')
                && key.ctrl) && old(self).mode == AppMode::Input ==> {
                &&& final(self).show_hex_modal == old(self).show_hex_modal
                &&& key.code == KeyCode::Char('?') ==> final(self).show_help
                    && final(self).same_but_flags(old(self))
                &&& key.code == KeyCode::Char('u') && key.ctrl ==> final(self).input_buffer@.len()
                    == 0
                &&& (key.code == KeyCode::Esc || key.code == KeyCode::Tab) ==> final(self).mode
                    == AppMode::View
                &&& key.code == KeyCode::Char('r') && key.ctrl ==> match decoded_input(
                    encode_utf8(old(self).input_buffer@),
                ) {
                    Some(b) => match spec_decode_all(b) {
                        Ok(objs) => final(self).objects() == objs && final(self).buffer@ == b
                            && final(self).selected_path@ == seq![0usize]
                            && final(self).collapsed_nodes@.len() == 0 && final(self).mode
                            == AppMode::View && final(self).nav_wf(),
                        Err(_) => final(self).same_but_flags(old(self)),
                    },
                    None => final(self).same_but_flags(old(self)),
                }
                &&& key.code == KeyCode::Backspace ==> final(self).input_buffer@ == if old(self).input_buffer@.len() > 0 {
                    old(self).input_buffer@.drop_last()
                } else {
                    old(self).input_buffer@
                }
                &&& key.code == KeyCode::Enter ==> final(self).input_buffer@
                    == old(self).input_buffer@.push('\n')
                &&& (key.code matches KeyCode::Char(c) && c != '?' && !(key.ctrl && (c == 'u' || c
                    == 'r'))) ==> final(self).input_buffer@ == old(self).input_buffer@.push(
                    key.code->Char_0,
                ) && final(self).mode == AppMode::Input
            },
            !old(self).show_help && !(old(self).show_hex_modal && key.code == KeyCode::Char('c')
                && key.ctrl) && old(self).mode == AppMode::View ==> {
                &&& final(self).input_buffer@ == old(self).input_buffer@
                &&& key.code == KeyCode::Char('q') ==> final(self).should_quit
                &&& (key.code == KeyCode::Char('i') || key.code == KeyCode::Tab) ==> final(self).mode
                    == AppMode::Input
                &&& (key.code == KeyCode::Char('h') || key.code == KeyCode::Char('l'))
                    ==> final(self).selected_path@ == old(self).selected_path@ && final(self).collapsed()
                    == toggled(old(self).objects(), old(self).collapsed(), old(self).selected_path@)
                &&& key.code == KeyCode::Char('j') ==> final(self).selected_path@
                    == path_after_down(
                    old(self).objects(),
                    old(self).collapsed(),
                    old(self).selected_path@,
                )
                &&& key.code == KeyCode::Char('k') ==> final(self).selected_path@ == path_after_up(
                    old(self).objects(),
                    old(self).collapsed(),
                    old(self).selected_path@,
                )
                &&& key.code == KeyCode::Char('x') ==> final(self).show_hex_modal
                &&& key.code == KeyCode::Esc ==> !final(self).show_hex_modal
                &&& key.code == KeyCode::Char('?') ==> final(self).show_help
            },
            old(self).nav_wf() ==> final(self).nav_wf(),
    {
        if self.show_help {
            self.show_help = false;
            proof {
                old(self).lemma_nav_wf_frame(self);
            }
            return;
        }
        if self.show_hex_modal && key.ctrl && key.code == KeyCode::Char('c') {
            self.copy_hex_to_clipboard = true;
            proof {
                old(self).lemma_nav_wf_frame(self);
            }
            return;
        }
        self.copy_hex_to_clipboard = false;
        let ghost mid = *self;
        proof {
            old(self).lemma_nav_wf_frame(&mid);
        }
        match self.mode {
            AppMode::Input => match key.code {
                KeyCode::Char('?') => {
                    self.show_help = true;
                },
                KeyCode::Char('u') if key.ctrl => {
                    clear_string(&mut self.input_buffer);
                },
                KeyCode::Esc => {
                    self.mode = AppMode::View;
                },
                KeyCode::Tab => {
                    self.mode = AppMode::View;
                },
                KeyCode::Char('r') if key.ctrl => {
                    if let Ok(decoded) = try_decode_input(self.input_buffer.as_str()) {
                        let _ = self.load(decoded);
                    }
                },
                KeyCode::Backspace => {
                    let _ = pop_char(&mut self.input_buffer);
                },
                KeyCode::Enter => {
                    push_char(&mut self.input_buffer, '\n');
                },
                KeyCode::Char(c) => {
                    push_char(&mut self.input_buffer, c);
                },
                KeyCode::Other => {},
            },
            AppMode::View => match key.code {
                KeyCode::Char('q') => {
                    self.should_quit = true;
                },
                KeyCode::Char('i') => {
                    self.mode = AppMode::Input;
                },
                KeyCode::Tab => {
                    self.mode = AppMode::Input;
                },
                KeyCode::Char('h') => {
                    self.toggle_collapse();
                },
                KeyCode::Char('l') => {
                    self.toggle_collapse();
                },
                KeyCode::Char('j') => {
                    self.move_selection_down(MOVE_AREA_HEIGHT);
                },
                KeyCode::Char('k') => {
                    self.move_selection_up(MOVE_AREA_HEIGHT);
                },
                KeyCode::Char('x') => {
                    self.show_hex_modal = true;
                },
                KeyCode::Esc => {
                    self.show_hex_modal = false;
                },
                KeyCode::Char('?') => {
                    self.show_help = true;
                },
                _ => {},
            },
        }
        proof {
            mid.lemma_nav_wf_frame(self);
        }
    }

    /// Brings the selected row into a window of `area_height` rows.
    pub fn update_tree_scroll(&mut self, area_height: usize)
        ensures
            final(self).same_but_selection(old(self)),
            final(self).selected_path@ == old(self).selected_path@,
            final(self).tree_scroll == scroll_for(
                old(self).tree_scroll as int,
                row_index(
                    visible_rows(old(self).objects(), old(self).collapsed()),
                    old(self).selected_path@,
                ) as int,
                area_height as int,
                visible_rows(old(self).objects(), old(self).collapsed()).len() as int,
            ),
    {
        let items = visible_items(&self.parsed_objects, &self.collapsed_nodes);
        let idx = index_of_path(&items, self.selected_path.as_slice());
        let total = items.len();
        assert(rows_view(items@).len() == items@.len());
        let mut scroll = self.tree_scroll;
        if idx < scroll {
            scroll = idx;
        } else if idx - scroll >= area_height {
            scroll = idx + 1 - area_height;
        }
        if total <= area_height {
            scroll = 0;
        } else if scroll > total - area_height {
            scroll = total - area_height;
        }
        self.tree_scroll = scroll;
    }
}

} // verus!
