//! The mouse.
use vstd::prelude::*;

use crate::app::{App, Rect};
use crate::keys::{in_shell, lemma_numbered_exist};
use crate::state::{activated, blank, buffer_id_seq, make_buffer_id, numbered, AppState, Buffer, BufferType};
use crate::text::{concat3, decimal, decimal_seq, opt_text, texts};

verus! {

broadcast use vstd::string::group_string_axioms;

/// A button of the mouse.
#[derive(Clone, Copy, Debug, PartialEq, Eq, Structural)]
pub enum MouseButton {
    Left,
    Right,
    Middle,
}

/// What the mouse did.
#[derive(Clone, Copy, Debug, PartialEq, Eq, Structural)]
pub enum MouseKind {
    Down(MouseButton),
    Up(MouseButton),
    Drag(MouseButton),
    Moved,
    ScrollUp,
    ScrollDown,
    Other,
}

/// What the mouse did, and where.
#[derive(Clone, Copy, Debug, PartialEq, Eq, Structural)]
pub struct MouseEvent {
    pub kind: MouseKind,
    pub column: u16,
    pub row: u16,
}

/// A position lies in a part of the screen.
pub open spec fn inside(r: Rect, column: u16, row: u16) -> bool {
    let right = if r.x + r.width > u16::MAX {
        u16::MAX as int
    } else {
        r.x + r.width
    };
    let bottom = if r.y + r.height > u16::MAX {
        u16::MAX as int
    } else {
        r.y + r.height
    };
    r.x <= column < right && r.y <= row < bottom
}

/// A position lies in an optional part of the screen.
pub open spec fn inside_opt(r: Option<Rect>, column: u16, row: u16) -> bool {
    r matches Some(r) && inside(r, column, row)
}

fn is_inside(r: Option<Rect>, column: u16, row: u16) -> (b: bool)
    ensures
        b == inside_opt(r, column, row),
{
    match r {
        None => false,
        Some(r) => {
            let right: u16 = r.x.saturating_add(r.width);
            let bottom: u16 = r.y.saturating_add(r.height);
            r.x <= column && column < right && r.y <= row && row < bottom
        },
    }
}

/// The button number and the final character of a mouse report.
pub open spec fn report_code(kind: MouseKind) -> Option<(nat, char)> {
    match kind {
        MouseKind::Down(MouseButton::Left) => Some((0, 'M')),
        MouseKind::Down(MouseButton::Middle) => Some((1, 'M')),
        MouseKind::Down(MouseButton::Right) => Some((2, 'M')),
        MouseKind::Up(MouseButton::Left) => Some((0, 'm')),
        MouseKind::Up(MouseButton::Middle) => Some((1, 'm')),
        MouseKind::Up(MouseButton::Right) => Some((2, 'm')),
        MouseKind::ScrollUp => Some((64, 'M')),
        MouseKind::ScrollDown => Some((65, 'M')),
        MouseKind::Drag(MouseButton::Left) => Some((32, 'M')),
        MouseKind::Drag(MouseButton::Middle) => Some((33, 'M')),
        MouseKind::Drag(MouseButton::Right) => Some((34, 'M')),
        MouseKind::Moved => Some((35, 'M')),
        MouseKind::Other => None,
    }
}

/// The one-based distance of a coordinate from the edge of an area.
pub open spec fn relative(at: u16, edge: u16) -> nat {
    if at >= edge {
        (at - edge + 1) as nat
    } else {
        1
    }
}

/// The SGR report of a mouse event to a program that fills an area.
pub open spec fn mouse_report(event: MouseEvent, area: Rect) -> Option<Seq<char>> {
    match report_code(event.kind) {
        None => None,
        Some((button, end)) => Some(
            "\u{1b}[<"@ + decimal_seq(button) + ";"@ + decimal_seq(relative(event.column, area.x)) + ";"@
                + decimal_seq(relative(event.row, area.y)) + seq![end],
        ),
    }
}

/// The report of a mouse event to the shell of the active buffer: `None` where the shell does not
/// track the mouse or the event has no report.
pub fn forward_mouse_to_shell(event: MouseEvent, area: Option<Rect>, tracking: bool) -> (r: Option<String>)
    ensures
        opt_text(r) == (match area {
            Some(area) if tracking => mouse_report(event, area),
            _ => None,
        }),
{
    let area = match area {
        None => {
            return None;
        },
        Some(area) => area,
    };
    if !tracking {
        return None;
    }
    let (button, end): (u64, char) = match event.kind {
        MouseKind::Down(MouseButton::Left) => (0, 'M'),
        MouseKind::Down(MouseButton::Middle) => (1, 'M'),
        MouseKind::Down(MouseButton::Right) => (2, 'M'),
        MouseKind::Up(MouseButton::Left) => (0, 'm'),
        MouseKind::Up(MouseButton::Middle) => (1, 'm'),
        MouseKind::Up(MouseButton::Right) => (2, 'm'),
        MouseKind::ScrollUp => (64, 'M'),
        MouseKind::ScrollDown => (65, 'M'),
        MouseKind::Drag(MouseButton::Left) => (32, 'M'),
        MouseKind::Drag(MouseButton::Middle) => (33, 'M'),
        MouseKind::Drag(MouseButton::Right) => (34, 'M'),
        MouseKind::Moved => (35, 'M'),
        MouseKind::Other => {
            return None;
        },
    };
    let x: u64 = if event.column >= area.x {
        (event.column - area.x) as u64 + 1
    } else {
        1
    };
    let y: u64 = if event.row >= area.y {
        (event.row - area.y) as u64 + 1
    } else {
        1
    };
    let mut s = concat3("\u{1b}[<", decimal(button).as_str(), ";");
    s.append(decimal(x).as_str());
    s.append(";");
    s.append(decimal(y).as_str());
    s.push(end);
    assert(s@ =~= mouse_report(event, area)->0);
    Some(s)
}

/// A scroll position within its limits, and the rows above the view.
pub open spec fn scroll_limits(total: usize, visible: usize, scroll: usize) -> (usize, usize) {
    let max = if total > visible {
        (total - visible) as usize
    } else {
        0
    };
    let clamped = if scroll < max {
        scroll
    } else {
        max
    };
    (clamped, (max - clamped) as usize)
}

/// A scroll position within its limits, and the rows above the view.
pub fn resolve_scroll(total: usize, visible: usize, scroll: usize) -> (r: (usize, usize))
    ensures
        r == scroll_limits(total, visible, scroll),
{
    let max: usize = total.saturating_sub(visible);
    let clamped: usize = if scroll < max {
        scroll
    } else {
        max
    };
    (clamped, max - clamped)
}

/// What is left to do about a mouse event.
#[derive(Clone, Copy, Debug, PartialEq, Eq, Structural)]
pub enum MouseAction {
    Ignore,
    /// The wizard is clicked.
    WizardClick,
    /// The emote picker is clicked, which closes it.
    PickerClick,
    /// The shell is told.
    Forward,
    /// Older lines may be needed.
    ScrolledUp,
    /// The backlog may be let go.
    ScrolledDown,
    ListScrolled,
    DismissPreview,
    /// A row of the buffer list is clicked.
    BufferList(usize),
    /// A row of the nick list is clicked.
    NickList(usize),
    /// A row of the chat is clicked.
    Chat(usize),
}

/// The row of an area that a screen row is.
pub open spec fn row_in(r: Rect, row: u16) -> usize {
    if row >= r.y {
        (row - r.y) as usize
    } else {
        0
    }
}

impl App {
    /// What a mouse event comes down to.
    pub open spec fn mouse_action(&self, event: MouseEvent) -> MouseAction {
        match self.regions {
            None => MouseAction::Ignore,
            Some(regions) => {
                let click = event.kind == MouseKind::Down(MouseButton::Left);
                let in_chat = inside_opt(regions.chat, event.column, event.row);
                let in_buffers = inside_opt(regions.buffer_list, event.column, event.row);
                let in_nicks = inside_opt(regions.nick_list, event.column, event.row);
                if self.overlays.wizard {
                    if click {
                        MouseAction::WizardClick
                    } else {
                        MouseAction::Ignore
                    }
                } else if self.overlays.picker {
                    if click {
                        MouseAction::PickerClick
                    } else {
                        MouseAction::Ignore
                    }
                } else if self.shell_input_active && in_chat {
                    MouseAction::Forward
                } else if event.kind == MouseKind::ScrollUp {
                    if in_chat {
                        MouseAction::ScrolledUp
                    } else if in_buffers || in_nicks {
                        MouseAction::ListScrolled
                    } else {
                        MouseAction::Ignore
                    }
                } else if event.kind == MouseKind::ScrollDown {
                    if in_chat {
                        MouseAction::ScrolledDown
                    } else if in_buffers || in_nicks {
                        MouseAction::ListScrolled
                    } else {
                        MouseAction::Ignore
                    }
                } else if click {
                    if self.overlays.preview {
                        MouseAction::DismissPreview
                    } else if in_buffers {
                        MouseAction::BufferList(row_in(regions.buffer_list->0, event.row))
                    } else if in_nicks {
                        MouseAction::NickList(row_in(regions.nick_list->0, event.row))
                    } else if in_chat {
                        MouseAction::Chat(row_in(regions.chat->0, event.row))
                    } else {
                        MouseAction::Ignore
                    }
                } else {
                    MouseAction::Ignore
                }
            },
        }
    }

    /// The scroll position of a list after it was scrolled by a row.
    pub open spec fn list_scroll(&self, event: MouseEvent, scroll: usize, total: usize, height: u16) -> usize {
        if event.kind == MouseKind::ScrollUp {
            if scroll > 0 {
                (scroll - 1) as usize
            } else {
                0
            }
        } else {
            let max = if total > height as usize {
                (total - height as usize) as usize
            } else {
                0
            };
            if scroll < max {
                (scroll + 1) as usize
            } else {
                scroll
            }
        }
    }

    /// Handles a mouse event: scrolls what it scrolls, and tells what is left to do.
    pub fn handle_mouse(&mut self, event: MouseEvent) -> (r: MouseAction)
        ensures
            r == old(self).mouse_action(event),
            mouse_applied(*old(self), *final(self), event, r),
    {
        let regions = match self.regions {
            None => {
                return MouseAction::Ignore;
            },
            Some(regions) => regions,
        };
        let click = event.kind == MouseKind::Down(MouseButton::Left);
        let in_chat = is_inside(regions.chat, event.column, event.row);
        let in_buffers = is_inside(regions.buffer_list, event.column, event.row);
        let in_nicks = is_inside(regions.nick_list, event.column, event.row);
        if self.overlays.wizard {
            return if click {
                MouseAction::WizardClick
            } else {
                MouseAction::Ignore
            };
        }
        if self.overlays.picker {
            return if click {
                self.overlays.picker = false;
                MouseAction::PickerClick
            } else {
                MouseAction::Ignore
            };
        }
        if self.shell_input_active && in_chat {
            return MouseAction::Forward;
        }
        match event.kind {
            MouseKind::ScrollUp => {
                if in_chat {
                    self.scroll_offset = self.scroll_offset.saturating_add(3);
                    MouseAction::ScrolledUp
                } else if in_buffers {
                    self.buffer_list_scroll = self.buffer_list_scroll.saturating_sub(1);
                    MouseAction::ListScrolled
                } else if in_nicks {
                    self.nick_list_scroll = self.nick_list_scroll.saturating_sub(1);
                    MouseAction::ListScrolled
                } else {
                    MouseAction::Ignore
                }
            },
            MouseKind::ScrollDown => {
                if in_chat {
                    self.scroll_offset = self.scroll_offset.saturating_sub(3);
                    return MouseAction::ScrolledDown;
                }
                if in_buffers {
                    match regions.buffer_list {
                        Some(area) => {
                            let max: usize = self.buffer_list_total.saturating_sub(area.height as usize);
                            if self.buffer_list_scroll < max {
                                self.buffer_list_scroll = self.buffer_list_scroll + 1;
                            }
                        },
                        None => {},
                    }
                    return MouseAction::ListScrolled;
                }
                if in_nicks {
                    match regions.nick_list {
                        Some(area) => {
                            let max: usize = self.nick_list_total.saturating_sub(area.height as usize);
                            if self.nick_list_scroll < max {
                                self.nick_list_scroll = self.nick_list_scroll + 1;
                            }
                        },
                        None => {},
                    }
                    return MouseAction::ListScrolled;
                }
                MouseAction::Ignore
            },
            MouseKind::Down(MouseButton::Left) => {
                if self.overlays.preview {
                    self.overlays.preview = false;
                    return MouseAction::DismissPreview;
                }
                if in_buffers {
                    return match regions.buffer_list {
                        Some(area) => MouseAction::BufferList(row_of(area, event.row)),
                        None => MouseAction::Ignore,
                    };
                }
                if in_nicks {
                    return match regions.nick_list {
                        Some(area) => MouseAction::NickList(row_of(area, event.row)),
                        None => MouseAction::Ignore,
                    };
                }
                if in_chat {
                    return match regions.chat {
                        Some(area) => MouseAction::Chat(row_of(area, event.row)),
                        None => MouseAction::Ignore,
                    };
                }
                MouseAction::Ignore
            },
            _ => MouseAction::Ignore,
        }
    }

    /// The height of a list on the screen.
    pub open spec fn list_height(&self, nicks: bool) -> usize {
        match self.regions {
            None => 0,
            Some(regions) => match (if nicks {
                regions.nick_list
            } else {
                regions.buffer_list
            }) {
                Some(area) => area.height as usize,
                None => 0,
            },
        }
    }

    fn height_of_list(&self, nicks: bool) -> (r: usize)
        ensures
            r == self.list_height(nicks),
    {
        match self.regions {
            None => 0,
            Some(regions) => {
                let area = if nicks {
                    regions.nick_list
                } else {
                    regions.buffer_list
                };
                match area {
                    Some(area) => area.height as usize,
                    None => 0,
                }
            },
        }
    }

    /// A click into the buffer list goes to the buffer of the row.
    pub fn handle_buffer_list_click(&mut self, y_offset: usize)
        ensures
            ({
                let scroll = scroll_limits(
                    old(self).buffer_list_total,
                    old(self).list_height(false),
                    old(self).buffer_list_scroll,
                ).0;
                let ids = numbered(old(self).state, old(self).state.buffers.keys());
                let row = y_offset + scroll;
                if row < ids.len() {
                    &&& activated(old(self).state, final(self).state, ids[row])
                    &&& *final(self) == (App {
                        state: final(self).state,
                        scroll_offset: 0,
                        buffer_list_scroll: scroll,
                        nick_list_scroll: 0,
                        shell_input_active: in_shell(final(self).state),
                        ..*old(self)
                    })
                } else {
                    *final(self) == (App { buffer_list_scroll: scroll, ..*old(self) })
                }
            }),
    {
        let visible: usize = self.height_of_list(false);
        let (scroll, _) = resolve_scroll(self.buffer_list_total, visible, self.buffer_list_scroll);
        self.buffer_list_scroll = scroll;
        let ids = self.state.numbered_buffer_ids();
        let n: usize = ids.len();
        assert(texts(ids@).len() == n);
        if scroll < n && y_offset < n - scroll {
            let row: usize = y_offset + scroll;
            proof {
                lemma_numbered_exist(self.state, self.state.buffers.keys());
                assert(texts(ids@)[row as int] == ids@[row as int]@);
            }
            let len: usize = self.state.buffers.len();
            self.state.set_active_buffer(ids[row].as_str());
            self.scroll_offset = 0;
            self.nick_list_scroll = 0;
            self.update_shell_input_state();
        }
    }

    /// A click into the nick list opens the query of the nick in the row. `nicks` are the rows below
    /// the heading.
    pub fn handle_nick_list_click(&mut self, y_offset: usize, nicks: &Vec<String>)
        ensures
            ({
                let scroll = scroll_limits(
                    old(self).nick_list_total,
                    old(self).list_height(true),
                    old(self).nick_list_scroll,
                ).0;
                let row = y_offset + scroll;
                let opens = old(self).state.active() matches Some(b) && b.buffer_type
                    == BufferType::Channel && 0 < row <= nicks@.len();
                if opens {
                    let conn_id = old(self).state.active()->0.connection_id@;
                    let nick = nicks@[row - 1]@;
                    &&& exists|middle: AppState|
                        {
                            &&& #[trigger] query_opened(old(self).state, middle, conn_id, nick)
                            &&& activated(middle, final(self).state, buffer_id_seq(conn_id, nick))
                        }
                    &&& *final(self) == (App {
                        state: final(self).state,
                        scroll_offset: 0,
                        nick_list_scroll: 0,
                        ..*old(self)
                    })
                } else {
                    *final(self) == (App { nick_list_scroll: scroll, ..*old(self) })
                }
            }),
    {
        let ghost before = *self;
        let visible: usize = self.height_of_list(true);
        let (scroll, _) = resolve_scroll(self.nick_list_total, visible, self.nick_list_scroll);
        self.nick_list_scroll = scroll;
        let n: usize = nicks.len();
        if y_offset == 0 && scroll == 0 {
            return;
        }
        if scroll > n || y_offset > n - scroll {
            return;
        }
        let row: usize = y_offset + scroll;
        let conn_id = match self.state.active_buffer() {
            None => {
                return;
            },
            Some(b) => {
                if b.buffer_type != BufferType::Channel {
                    return;
                }
                b.connection_id.clone()
            },
        };
        let nick = nicks[row - 1].as_str();
        let id = make_buffer_id(conn_id.as_str(), nick);
        if !self.state.buffers.contains(id.as_str()) {
            let buffer = Buffer::named(conn_id.as_str(), BufferType::Query, nick);
            self.state.add_buffer(buffer);
        }
        let ghost middle = self.state;
        assert(query_opened(before.state, middle, conn_id@, nick@));
        self.state.set_active_buffer(id.as_str());
        self.scroll_offset = 0;
        self.nick_list_scroll = 0;
    }

    /// The message under a click into the chat, where images are shown.
    pub fn handle_chat_click(&self, y_offset: usize, enabled: bool) -> (r: Option<usize>)
        ensures
            r == (match self.state.active() {
                Some(b) if enabled => {
                    let height = match self.regions {
                        Some(regions) => match regions.chat {
                            Some(area) => area.height as usize,
                            None => 0,
                        },
                        None => 0,
                    };
                    let skip = scroll_limits(b.messages@.len() as usize, height, self.scroll_offset).1;
                    if skip + y_offset < b.messages@.len() {
                        Some((skip + y_offset) as usize)
                    } else {
                        None
                    }
                },
                _ => None,
            }),
    {
        if !enabled {
            return None;
        }
        match self.state.active_buffer() {
            None => None,
            Some(b) => {
                let height: usize = match self.regions {
                    Some(regions) => match regions.chat {
                        Some(area) => area.height as usize,
                        None => 0,
                    },
                    None => 0,
                };
                let total: usize = b.messages.len();
                let (_, skip) = resolve_scroll(total, height, self.scroll_offset);
                if skip < total && y_offset < total - skip {
                    Some(skip + y_offset)
                } else {
                    None
                }
            },
        }
    }
}

/// The query of a nick is open.
pub open spec fn query_opened(before: AppState, after: AppState, conn_id: Seq<char>, nick: Seq<char>) -> bool {
    let id = buffer_id_seq(conn_id, nick);
    if before.buffers@.contains_key(id) {
        after == before
    } else {
        &&& after == (AppState { buffers: after.buffers, ..before })
        &&& after.buffers.keys() == before.buffers.keys().push(id)
        &&& after.buffers@ == before.buffers@.insert(id, after.buffers@[id])
        &&& after.buffers@[id].connection_id@ == conn_id
        &&& after.buffers@[id].name@ == nick
        &&& after.buffers@[id].id@ == id
        &&& after.buffers@[id].buffer_type == BufferType::Query
        &&& blank(after.buffers@[id])
    }
}

/// The row of an area that a screen row is.
fn row_of(area: Rect, row: u16) -> (r: usize)
    ensures
        r == row_in(area, row),
{
    if row >= area.y {
        (row - area.y) as usize
    } else {
        0
    }
}

/// What a mouse event scrolled or closed.
pub open spec fn mouse_applied(before: App, after: App, event: MouseEvent, action: MouseAction) -> bool {
    match action {
        MouseAction::PickerClick => after == (App {
            overlays: crate::app::Overlays { picker: false, ..before.overlays },
            ..before
        }),
        MouseAction::DismissPreview => after == (App {
            overlays: crate::app::Overlays { preview: false, ..before.overlays },
            ..before
        }),
        MouseAction::ScrolledUp => after == (App {
            scroll_offset: if before.scroll_offset > usize::MAX - 3 {
                usize::MAX
            } else {
                (before.scroll_offset + 3) as usize
            },
            ..before
        }),
        MouseAction::ScrolledDown => after == (App {
            scroll_offset: if before.scroll_offset < 3 {
                0
            } else {
                (before.scroll_offset - 3) as usize
            },
            ..before
        }),
        MouseAction::ListScrolled => if inside_opt(
            before.regions->0.buffer_list,
            event.column,
            event.row,
        ) {
            after == (App {
                buffer_list_scroll: before.list_scroll(
                    event,
                    before.buffer_list_scroll,
                    before.buffer_list_total,
                    (before.regions->0.buffer_list->0).height,
                ),
                ..before
            })
        } else {
            after == (App {
                nick_list_scroll: before.list_scroll(
                    event,
                    before.nick_list_scroll,
                    before.nick_list_total,
                    (before.regions->0.nick_list->0).height,
                ),
                ..before
            })
        },
        _ => after == before,
    }
}

/// An event of the terminal, as far as it tells whether someone is there.
#[derive(Clone, Copy, Debug, PartialEq, Eq, Structural)]
pub enum FocusEvent {
    /// A terminal was attached, perhaps in the background.
    Attached,
    Gained,
    Lost,
    Pressed,
    Released,
    Mouse(MouseKind),
    Other,
}

/// Whether someone is known to be at the terminal after an event: who presses a key or uses the mouse
/// is there, and the mouse that only moves, or a key that is let go, tells nothing.
pub open spec fn focus_after(focused: bool, event: FocusEvent) -> bool {
    match event {
        FocusEvent::Gained | FocusEvent::Pressed => true,
        FocusEvent::Attached | FocusEvent::Lost => false,
        FocusEvent::Mouse(kind) => focused || kind != MouseKind::Moved,
        FocusEvent::Released | FocusEvent::Other => focused,
    }
}

impl App {
    /// Notes what an event of the terminal tells of whether someone is there.
    pub fn note_focus(&mut self, event: FocusEvent)
        ensures
            *final(self) == (App {
                terminal_focused: focus_after(old(self).terminal_focused, event),
                ..*old(self)
            }),
    {
        self.terminal_focused = match event {
            FocusEvent::Gained => true,
            FocusEvent::Pressed => true,
            FocusEvent::Attached => false,
            FocusEvent::Lost => false,
            FocusEvent::Mouse(kind) => self.terminal_focused || kind != MouseKind::Moved,
            FocusEvent::Released => self.terminal_focused,
            FocusEvent::Other => self.terminal_focused,
        };
    }
}

/// A scrolled view shows as much as it can: the rows above it, those in it and those below it are all there are,
/// it is never scrolled further than it was, and not at all where everything fits.
pub proof fn scrolling_stays_inside(total: usize, visible: usize, scroll: usize)
    ensures
        ({
            let (below, above) = scroll_limits(total, visible, scroll);
            &&& below <= scroll
            &&& total <= visible ==> below == 0 && above == 0
            &&& total > visible ==> above + visible + below == total
            &&& total > visible && scroll <= total - visible ==> below == scroll
        }),
{
}

/// Scrolling the chat up and down again ends where it began.
pub proof fn scrolling_up_and_down(before: App, up: App, down: App, a: MouseEvent, b: MouseEvent)
    requires
        mouse_applied(before, up, a, MouseAction::ScrolledUp),
        mouse_applied(up, down, b, MouseAction::ScrolledDown),
        before.scroll_offset <= usize::MAX - 3,
    ensures
        down == before,
        up.scroll_offset > before.scroll_offset,
{
}

/// A click goes to what stands under it: in the buffer list, the nick list or the chat to the row that was
/// clicked, counted from the top of that part.
pub proof fn clicks_go_to_what_is_under_them(app: App, event: MouseEvent, area: Rect, chat: bool, row: u16)
    requires
        app.regions is Some,
        !app.overlays.wizard && !app.overlays.picker && !app.overlays.preview,
        !app.shell_input_active,
        event.kind == MouseKind::Down(MouseButton::Left),
        app.regions->0.nick_list is None,
        if chat {
            app.regions->0.chat == Some(area) && app.regions->0.buffer_list is None
        } else {
            app.regions->0.buffer_list == Some(area)
        },
        area.x <= event.column < area.x + area.width,
        area.x + area.width <= u16::MAX,
        area.y + area.height <= u16::MAX,
        row < area.height,
        event.row == area.y + row,
    ensures
        app.mouse_action(event) == (if chat {
            MouseAction::Chat(row as usize)
        } else {
            MouseAction::BufferList(row as usize)
        }),
{
}

/// The lists scroll by one row, never past their last full page, and back again.
pub proof fn lists_scroll_row_by_row(app: App, up: MouseEvent, down: MouseEvent, scroll: usize, total: usize, height: u16)
    requires
        up.kind == MouseKind::ScrollUp,
        down.kind == MouseKind::ScrollDown,
        scroll + height <= total || scroll == 0,
    ensures
        ({
            let lower = app.list_scroll(down, scroll, total, height);
            &&& lower == (if scroll + height < total {
                scroll + 1
            } else {
                scroll as int
            })
            &&& lower > scroll ==> app.list_scroll(up, lower, total, height) == scroll
            &&& app.list_scroll(up, scroll, total, height) <= scroll
        }),
{
}

} // verus!
