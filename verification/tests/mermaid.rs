use mdroll::mermaid::{parse_flowchart, ranks, render, Direction, Shape};
use mdroll::width::WidthCalc;


const CALC: WidthCalc = WidthCalc {
    ambiguous_wide: false,
};

fn rows(code: &str) -> Vec<String> {
    render(code, &CALC).unwrap_or_else(|| panic!("declined to render:\n{code}"))
}

#[test]
fn a_linear_flowchart_draws_a_box_per_node() {
    let out = rows("flowchart TD\n    A[one] --> B[two]\n    B --> C[three]\n");
    let text = out.join("\n");
    assert!(text.contains("one") && text.contains("two") && text.contains("three"));
    assert_eq!(text.matches('┌').count(), 3, "{text}");
    assert!(text.contains('▼'), "arrows point at the target");
}

#[test]
fn node_labels_default_to_the_node_id() {
    let out = rows("graph TD\n  A --> B\n");
    let text = out.join("\n");
    assert!(text.contains('A') && text.contains('B'));
}

#[test]
fn a_branch_puts_siblings_on_the_same_rank() {
    let chart = parse_flowchart("flowchart TD\n A --> B\n A --> C\n").unwrap();
    let rank = ranks(&chart).unwrap();
    assert_eq!(rank[0], 0);
    assert_eq!(rank[1], 1);
    assert_eq!(rank[2], 1);
}

#[test]
fn edge_labels_are_parsed_in_both_spellings() {
    let a = parse_flowchart("flowchart TD\n A -->|yes| B\n").unwrap();
    assert_eq!(a.edges[0].label.as_deref(), Some("yes"));
    let b = parse_flowchart("flowchart TD\n A -- no --> B\n").unwrap();
    assert_eq!(b.edges[0].label.as_deref(), Some("no"));
}

#[test]
fn shapes_are_recognised() {
    let chart =
        parse_flowchart("flowchart TD\n A[rect] --> B(round)\n B --> C{choice}\n").unwrap();
    assert_eq!(chart.nodes[0].shape, Shape::Rect);
    assert_eq!(chart.nodes[1].shape, Shape::Round);
    assert_eq!(chart.nodes[2].shape, Shape::Diamond);
}

#[test]
fn a_chain_on_one_line_becomes_two_edges() {
    let chart = parse_flowchart("flowchart LR\n A --> B --> C\n").unwrap();
    assert_eq!(chart.edges.len(), 2);
    assert_eq!(chart.nodes.len(), 3);
}

#[test]
fn repeating_a_node_id_reuses_it() {
    let chart = parse_flowchart("flowchart TD\n A[first] --> B\n A --> C\n").unwrap();
    assert_eq!(chart.nodes.len(), 3);
    assert_eq!(chart.nodes[0].label, "first");
}

#[test]
fn left_to_right_lays_ranks_out_horizontally() {
    let out = rows("flowchart LR\n A[one] --> B[two]\n");
    assert!(out.iter().any(|r| r.contains("one") && r.contains("two")));
    assert!(out.join("\n").contains('▶'));
}

#[test]
fn a_left_to_right_edge_that_skips_a_rank_goes_under_the_boxes() {
    // Drawn straight, this one ran at B — and since a connector is only
    // drawn where the canvas is blank, it vanished behind it and the
    // diagram was simply missing an edge.
    let out = rows("flowchart LR\n A --> B\n B --> C\n A --> C\n");
    assert_eq!(
        out.len(),
        5,
        "two rows under the boxes:\n{}",
        out.join("\n")
    );
    assert!(out[4].contains('└') && out[4].contains('┘'), "{:?}", out[4]);
    assert_eq!(
        out.join("\n").matches('▲').count(),
        1,
        "one head, pointing up into C"
    );
}

#[test]
fn a_left_to_right_chart_with_no_long_edge_gains_no_rows() {
    assert_eq!(rows("flowchart LR\n A --> B\n").len(), 3);
}

#[test]
fn every_row_fits_the_widest_row() {
    let out = rows("flowchart TD\n A[a very long label indeed] --> B[b]\n A --> C[c]\n");
    let widths: Vec<usize> = out.iter().map(|r| CALC.str(r)).collect();
    let max = widths.iter().copied().max().unwrap();
    assert!(max > 0);
    assert!(out.iter().all(|r| CALC.str(r) <= max));
}

#[test]
fn cjk_labels_are_measured_in_display_columns() {
    let out = rows("flowchart TD\n A[日本語] --> B[b]\n");
    let top = out.iter().find(|r| r.contains('┌')).unwrap();
    // Box is 日本語 (6 columns) plus two spaces and two borders.
    assert_eq!(CALC.str(top), 10);
}

#[test]
fn siblings_hang_off_one_shared_bus() {
    let out = rows("flowchart TD\n A[p] --> B[l]\n A --> C[r]\n");
    let bus = out
        .iter()
        .find(|r| r.contains('┴'))
        .expect("the bus meets the parent at a T junction");
    assert!(bus.starts_with(' ') || bus.starts_with('┌'));
    assert_eq!(
        bus.matches('┴').count(),
        1,
        "one junction, not one per edge"
    );
    assert!(bus.contains('┌') && bus.contains('┐'), "{bus}");
}

#[test]
fn an_edge_label_is_drawn_in_full_and_leaves_the_connector_alone() {
    let out = rows("flowchart TD\n A[p] -->|a fairly long label| B[left]\n A --> C[right]\n");
    let row = out
        .iter()
        .find(|r| r.contains("a fairly long label"))
        .expect("the label is drawn, and not cut off at the canvas edge");
    // The parent's connector runs down this same row; the label used to be
    // written straight over it.
    assert!(row.contains('│'), "{row:?}");
}

#[test]
fn an_edge_label_survives_whatever_length_it_is() {
    // Every one of these was silently truncated at the right edge once the
    // label grew past the width of the boxes.
    for n in 1..40 {
        let label = "x".repeat(n);
        let code = format!("flowchart TD\n A[p] -->|{label}| B[l]\n A -->|{label}| C[r]\n");
        let out = rows(&code);
        assert_eq!(
            out.iter().filter(|r| r.contains(&label)).count(),
            1,
            "both labels share the row above the bus:\n{}",
            out.join("\n")
        );
        let row = out.iter().find(|r| r.contains(&label)).unwrap();
        assert_eq!(row.matches(&label).count(), 2, "{row:?}");
        assert!(row.contains('│'), "{row:?}");
    }
}

#[test]
fn parents_that_meet_at_one_child_share_the_junction_under_it() {
    // Each parent drew the junction for itself and the second was drawn
    // over the first, so this came out `└────┌────┘` — a corner turning
    // away where the column carrying on downwards wants a `┬`.
    let out = rows("flowchart TD\n A[one] --> C[join]\n B[two] --> C\n");
    let bus = out
        .iter()
        .find(|r| r.contains('┬'))
        .unwrap_or_else(|| panic!("no junction:\n{}", out.join("\n")));
    assert_eq!(bus.trim(), "└────┬────┘", "\n{}", out.join("\n"));
}

#[test]
fn a_parent_standing_over_the_junction_carries_its_line_through_it() {
    // B is directly above D, so its connector arrives from above and goes
    // on down while the buses from A and C come in from either side.
    let out = rows("flowchart TD\n A --> D\n B --> D\n C --> D\n");
    let bus = out
        .iter()
        .find(|r| r.contains('┼'))
        .unwrap_or_else(|| panic!("no junction:\n{}", out.join("\n")));
    assert_eq!(bus.trim(), "└───────┼───────┘", "\n{}", out.join("\n"));
}

#[test]
fn a_junction_never_turns_away_from_the_child_below_it() {
    // Whichever parent draws last, only the two ends of the bus turn: a
    // `┌` or a `┐` anywhere in between is a line stopping where another
    // line was meant to carry on.
    for n in 2..7 {
        let mut code = String::from("flowchart TD\n");
        for i in 0..n {
            code.push_str(&format!(" {} --> Z\n", (b'A' + i) as char));
        }
        let out = rows(&code);
        let bus = out
            .iter()
            .find(|r| r.contains('┬') || r.contains('┼'))
            .unwrap_or_else(|| panic!("{n} parents, no junction:\n{}", out.join("\n")));
        assert!(
            !bus.contains('┌') && !bus.contains('┐'),
            "{n} parents: {bus:?}"
        );
        assert!(
            bus.trim().starts_with('└') && bus.trim().ends_with('┘'),
            "{n} parents: {bus:?}"
        );
    }
}

#[test]
fn labels_meeting_at_one_node_hang_off_the_column_each_edge_has_to_itself() {
    // Both were written beside the child they share, so the second landed
    // on the first and `from a` beside `from b` read `from bm a`. Each is
    // now beside its own parent, which is what tells the two edges apart.
    for dir in ["TD", "LR", "RL"] {
        for n in 1..24 {
            let (q, z) = ("q".repeat(n), "z".repeat(n));
            let code =
                format!("flowchart {dir}\n A[one] -->|{q}| C[join]\n B[two] -->|{z}| C\n");
            let joined = rows(&code).join("\n");
            // Either label surviving whole is the property: written over
            // each other, whichever went second leaves the first in
            // pieces — `from a` and `from b` came out as `from bm a`.
            for label in [&q, &z] {
                assert!(joined.contains(label.as_str()), "{dir} lost it:\n{joined}");
            }
            for boxed in ["│ one │", "│ two │", "│ join │"] {
                assert!(joined.contains(boxed), "{dir}:\n{joined}");
            }
        }
    }
}

#[test]
fn a_fan_out_keeps_its_labels_beside_the_children() {
    // The switch is only for the edges that share a child. Where one parent
    // has them all, the children's columns are what tell the edges apart
    // and the labels stay where they were.
    let out = rows("flowchart TD\n A{ok?} -->|yes| B[go]\n A -->|no| C[stop]\n");
    let row = out
        .iter()
        .find(|r| r.contains("yes"))
        .unwrap_or_else(|| panic!("{}", out.join("\n")));
    assert!(
        row.contains("no"),
        "both beside the bus:\n{}",
        out.join("\n")
    );
}

/// The row a box sits on, out of a drawing.
fn row_of<'a>(out: &'a [String], boxed: &str) -> &'a String {
    out.iter()
        .find(|r| r.contains(boxed))
        .unwrap_or_else(|| panic!("no {boxed}:\n{}", out.join("\n")))
}

#[test]
fn a_sideways_fan_turns_in_one_glyph_rather_than_in_the_last_one_drawn() {
    // Every connector of a band turns in the same column and each knows
    // only its own half of what belongs there: `┘` for the child above and
    // `┐` for the one below are together a `┤`, and drawn as glyphs
    // whichever went second replaced the other. `│ A │───┐` with a `│`
    // standing on it is a run stopping half a cell short of its own corner.
    for n in 2..7 {
        let mut code = String::from("flowchart LR\n");
        for i in 0..n {
            code.push_str(&format!(" A --> {}\n", (b'B' + i) as char));
        }
        let out = rows(&code);
        // An odd fan has a child level with the parent, reached by a
        // straight run through the same cell, which makes the fourth arm.
        let want = if n % 2 == 1 { '┼' } else { '┤' };
        let row = row_of(&out, "│ A │");
        assert!(
            row.contains(want),
            "{n} children want {want}: {row:?}\n{}",
            out.join("\n")
        );
    }
}

#[test]
fn a_sideways_merge_turns_in_one_glyph_as_well() {
    // The same cell on the other end of the run: every parent's connector
    // arrives at the child's row in the turning column, and the glyph there
    // has to carry all of them rather than the last one written.
    for n in 2..7 {
        let mut code = String::from("flowchart LR\n");
        for i in 0..n {
            code.push_str(&format!(" {} --> Z\n", (b'A' + i) as char));
        }
        let out = rows(&code);
        let want = if n % 2 == 1 { '┼' } else { '├' };
        let row = row_of(&out, "│ Z │");
        assert!(
            row.contains(want),
            "{n} parents want {want}: {row:?}\n{}",
            out.join("\n")
        );
    }
}

#[test]
fn a_second_lane_leaving_one_box_carries_on_past_the_first() {
    // Two edges that skip a rank out of the same box each get a lane, and
    // the second has to cross the first's corner to reach its own. A corner
    // is drawn hard and a plain line only fills blank cells, so the second
    // lane used to stop dead there and start again on the far side.
    let td = rows("flowchart TD\n A --> B --> C --> D\n A --> C\n A --> D\n");
    let out = td
        .iter()
        .find(|r| r.contains('┬'))
        .unwrap_or_else(|| panic!("TD:\n{}", td.join("\n")));
    assert_eq!(out.trim(), "└───┘─┬─┐", "TD:\n{}", td.join("\n"));

    let lr = rows("flowchart LR\n A --> B --> C --> D\n A --> C\n A --> D\n");
    let out = lr
        .iter()
        .find(|r| r.contains('├'))
        .unwrap_or_else(|| panic!("LR:\n{}", lr.join("\n")));
    assert_eq!(
        out.trim(),
        "├─────────────────────┘          │",
        "LR:\n{}",
        lr.join("\n")
    );
}

#[test]
fn one_lane_crossing_another_does_not_claim_to_meet_it() {
    // Here the lanes belong to different boxes, so one runs across the
    // other rather than out of the same corner. The two edges do not meet
    // there, and a `┼` said they did: the vertical is drawn and the
    // horizontal shows the one-cell gap where it runs behind.
    let td = rows("flowchart TD\n A --> B --> C --> D --> E\n A --> C\n B --> D\n");
    let joined = td.join("\n");
    assert!(!joined.contains('┼'), "TD:\n{joined}");
    // B's run out to its own lane, crossing the lane A --> C is in.
    assert!(td.iter().any(|r| r.trim() == "└───┘─│─┐"), "TD:\n{joined}");
    let lr = rows("flowchart LR\n A --> B --> C --> D --> E\n A --> C\n B --> D\n");
    let joined = lr.join("\n");
    assert!(!joined.contains('┼'), "LR:\n{joined}");
    // The lane A --> C is in, crossed by B's run down to its own, which
    // carries on past it.
    assert!(
        lr.iter()
            .any(|r| r.trim() == "└──────────│──────────┘          │"),
        "LR:\n{joined}"
    );
}

#[test]
fn the_line_in_front_of_a_crossing_stays_unbroken() {
    // A crossing is drawn by leaving out one cell of the line behind it, so
    // the line in front has to be continuous: a gap in that one would read
    // as a line that stops rather than one that is crossed. Every chain
    // length is tried because the lanes cross at a different place in each.
    for n in 4..12 {
        let names: Vec<String> = (0..n).map(|i| format!("N{i}")).collect();
        let code = format!(
            "flowchart TD\n {}\n {} --> {}\n {} --> {}\n",
            names.join(" --> "),
            names[0],
            names[2],
            names[1],
            names[3],
        );
        let out = rows(&code);
        let joined = out.join("\n");
        assert!(!joined.contains('┼'), "{n} boxes:\n{joined}");
        // The lane of the first edge is the column its top corner is in,
        // and it has to be a line in every row down to the corner that
        // turns it back towards its target.
        let at = |r: &String, c: char| r.chars().position(|g| g == c);
        let (top, col) = out
            .iter()
            .enumerate()
            .find_map(|(y, r)| at(r, '┐').map(|x| (y, x)))
            .unwrap_or_else(|| panic!("{n} boxes, no lane:\n{joined}"));
        let end = out
            .iter()
            .enumerate()
            .skip(top + 1)
            .find_map(|(y, r)| (at(r, '┘') == Some(col)).then_some(y))
            .unwrap_or_else(|| panic!("{n} boxes, lane never turns back:\n{joined}"));
        for (y, row) in out.iter().enumerate().take(end).skip(top + 1) {
            let glyph = row.chars().nth(col);
            assert!(
                matches!(glyph, Some('│' | '├' | '┤' | '┼')),
                "{n} boxes, row {y} column {col} is {glyph:?}:\n{joined}"
            );
        }
    }
}

#[test]
fn a_lane_never_writes_over_the_label_it_is_carrying() {
    // `join` reads the cell it is about to draw, and a label is not a line:
    // it has nothing to say about where one goes and must be left alone.
    let out = rows("flowchart LR\n A --> B --> C\n A -->|the skip| C\n");
    let joined = out.join("\n");
    assert!(joined.contains("the skip"), "{joined}");
}

#[test]
fn a_sideways_edge_carries_its_label_to_the_box_it_points_at() {
    // Labels were drawn only by the fan that hangs a top-down parent's
    // children off one bus, so `flowchart LR` dropped every one it was
    // given: `A -->|yes| B` drew no `yes` anywhere.
    for dir in ["LR", "RL"] {
        for n in 1..24 {
            let (q, z) = ("q".repeat(n), "z".repeat(n));
            let code =
                format!("flowchart {dir}\n A[start] -->|{q}| B[next]\n A -->|{z}| C[other]\n");
            let out = rows(&code);
            let joined = out.join("\n");
            let at = |label: &String| {
                out.iter()
                    .position(|r| r.contains(label.as_str()))
                    .unwrap_or_else(|| panic!("{dir} lost {label}:\n{joined}"))
            };
            // Each label goes to the end its own arrowhead is on, which is
            // the one end where the edges of a fan are on rows of their
            // own. Written where they leave, they would share a row and
            // the second would be drawn over the first.
            assert!(out[at(&q)].contains("next"), "{dir}:\n{joined}");
            assert!(out[at(&z)].contains("other"), "{dir}:\n{joined}");
            assert_eq!(joined.matches('▶').count() + joined.matches('◀').count(), 2);
            assert!(joined.contains("│ start │"), "{dir}:\n{joined}");
        }
    }
}

#[test]
fn four_labels_between_two_parents_and_two_children_all_survive() {
    // Both parents' columns carry two edges and so do both children's, so
    // no column tells the four labels apart and they were all written on
    // one row. Two of them were drawn over the other two: `from b` came
    // out as `fto d2`, which is not a word anybody wrote.
    for n in 1..14 {
        let labels: Vec<String> = ["fa", "td", "fb", "t2"]
            .iter()
            .map(|s| format!("{s}{}", "q".repeat(n)))
            .collect();
        let code = format!(
            "flowchart TD\n A -->|{}| C\n A -->|{}| D\n B -->|{}| C\n B -->|{}| D\n",
            labels[0], labels[1], labels[2], labels[3]
        );
        let out = rows(&code);
        let joined = out.join("\n");
        for label in &labels {
            assert!(
                joined.contains(label.as_str()),
                "lost {label} at width {n}:\n{joined}"
            );
        }
    }
}

#[test]
fn four_sideways_labels_between_two_parents_and_two_children_all_survive() {
    // The `LR` version of the same collision, and it was the worse one: two
    // labels were lost outright and the two that survived sat on a row
    // belonging to an edge that was not theirs, so `A ──from b──▶ C` said
    // the label of `B --> C` about the edge from `A`.
    for dir in ["LR", "RL"] {
        for n in 1..12 {
            let labels: Vec<String> = ["fa", "td", "fb", "t2"]
                .iter()
                .map(|s| format!("{s}{}", "q".repeat(n)))
                .collect();
            let code = format!(
                "flowchart {dir}\n A -->|{}| C\n A -->|{}| D\n B -->|{}| C\n B -->|{}| D\n",
                labels[0], labels[1], labels[2], labels[3]
            );
            let out = rows(&code);
            let joined = out.join("\n");
            for label in &labels {
                assert!(
                    joined.contains(label.as_str()),
                    "{dir} lost {label} at width {n}:\n{joined}"
                );
            }
            // And none of them was written over a box.
            for node in ["A", "B", "C", "D"] {
                assert!(
                    joined.contains(&format!("│ {node} │")),
                    "{dir} lost box {node}:\n{joined}"
                );
            }
        }
    }
}

#[test]
fn a_run_with_one_label_on_each_row_is_no_wider_than_it_was() {
    // Sharing a row is what costs width, and a diagram whose labels each
    // have a row to themselves must not pay for it.
    let out = rows("flowchart LR\n A[start] -->|yes| B[next]\n A -->|no| C[other]\n");
    let widest = out.iter().map(|r| r.chars().count()).max().unwrap();
    assert_eq!(widest, 26, "{}", out.join("\n"));
}

#[test]
fn a_band_with_nothing_to_stack_is_no_taller_than_it_was() {
    // Stacking is what a collision costs, and a diagram without one must
    // not pay it: two children of one parent go left and right of it and
    // have a row to share.
    let plain = rows("flowchart TD\n A --> B\n A --> C\n").len();
    let labelled = rows("flowchart TD\n A -->|yes| B\n A -->|no| C\n").len();
    assert_eq!(plain, labelled, "a label made the diagram taller");
}

#[test]
fn stacked_labels_stay_clear_of_the_boxes_above_them() {
    // The bus sits in the middle of the band and labels stack upwards from
    // it, so a band that does not grow with them writes the topmost one
    // over the row of boxes above.
    let long = "x".repeat(12);
    let code = format!(
        "flowchart TD\n A -->|{long}1| C\n A -->|{long}2| D\n B -->|{long}3| C\n B -->|{long}4| D\n"
    );
    let out = rows(&code);
    let joined = out.join("\n");
    for (i, row) in out.iter().enumerate() {
        if row.contains(&long) {
            assert!(
                !row.contains('│') || !row.contains('┌'),
                "row {i} has a label written into the boxes:\n{joined}"
            );
        }
    }
    // The two rows of boxes are still whole.
    assert_eq!(joined.matches('┌').count(), 4, "{joined}");
}

#[test]
fn an_edge_that_skips_a_rank_carries_its_label_too() {
    // The other place with no label: an edge routed out to a lane of its
    // own, in either direction.
    for dir in ["TD", "LR"] {
        for n in 1..40 {
            let label = "q".repeat(n);
            let code = format!("flowchart {dir}\n A --> B\n B --> C\n A -->|{label}| C\n");
            let out = rows(&code);
            let joined = out.join("\n");
            assert!(
                joined.contains(&label),
                "{dir} truncated the label at the canvas edge:\n{joined}"
            );
            // Beside the lane, never over a box or over the corner that
            // turns the lane, both of which are drawn hard.
            for boxed in ["│ A │", "│ B │", "│ C │"] {
                assert!(joined.contains(boxed), "{dir}:\n{joined}");
            }
            let heads = joined.matches(['▲', '▼', '◀', '▶']).count();
            assert_eq!(heads, 3, "one head per edge, {dir}:\n{joined}");
        }
    }
}

#[test]
fn a_decision_node_is_marked_with_angle_brackets() {
    let out = rows("flowchart TD\n A{ok?} --> B[yes]\n");
    assert!(out.iter().any(|r| r.contains("< ok? >")), "{out:#?}");
}

#[test]
fn a_note_is_drawn_over_the_lifelines_it_spans() {
    let out = rows(
        "sequenceDiagram\n participant A\n participant B\n A->>B: hi\n Note over A,B: careful\n",
    );
    let body = out
        .iter()
        .find(|r| r.contains("careful"))
        .expect("the note text is drawn");
    // The lifelines must not show through the note's interior.
    assert!(!body.contains("││"), "{body:?}");
}

#[test]
fn a_reply_arrow_points_the_other_way() {
    let out = rows("sequenceDiagram\n A->>B: ask\n B-->>A: answer\n");
    let reply = out.iter().find(|r| r.contains('◀')).unwrap();
    assert!(reply.ends_with('┤'), "{reply:?}");
}

#[test]
fn a_right_to_left_chart_points_its_arrow_at_the_target() {
    // Mermaid puts A on the right and B on the left, with the arrow into
    // B. Turning the edge round to place the ranks got the boxes right and
    // the one thing a diagram says — which way it goes — wrong.
    let out = rows("flowchart RL\n A --> B\n");
    let row = out
        .iter()
        .find(|r| r.contains('◀') || r.contains('▶'))
        .unwrap();
    assert!(!row.contains('▶'), "the arrow points at B, not A: {row:?}");
    assert!(row.find('B') < row.find('A'), "{row:?}");
}

#[test]
fn a_bottom_to_top_chart_points_its_arrow_upwards() {
    let out = rows("flowchart BT\n A --> B\n");
    let text = out.join("\n");
    assert!(text.contains('▲'), "{text}");
    assert!(!text.contains('▼'), "{text}");
    assert!(text.find('B') < text.find('A'), "B is on top: {text}");
}

#[test]
fn a_top_down_chart_still_points_downwards() {
    let out = rows("flowchart TD\n A --> B\n A --> C\n");
    let text = out.join("\n");
    assert_eq!(text.matches('▼').count(), 2, "one head per edge: {text}");
    assert!(!text.contains('▲'), "{text}");
}

/// One of the sixteen subsets of the four edges between `A`,`B` and `C`,`D`.
fn k22_subset(dir: &str, mask: u8) -> String {
    let mut code = format!("flowchart {dir}\n");
    for (i, (from, to)) in [("A", "C"), ("A", "D"), ("B", "C"), ("B", "D")]
        .iter()
        .enumerate()
    {
        if mask & (1 << i) != 0 {
            code.push_str(&format!(" {from} --> {to}\n"));
        }
    }
    code
}

#[test]
fn no_two_different_charts_come_out_as_the_same_drawing() {
    // A run with two boxes hanging off one side and two off the other
    // offers every connection between them, whichever of them were
    // written, so three of these subsets drew the picture of all four:
    //
    //     ┌───┐   ┌───┐
    //     │ A │   │ B │
    //     └───┘   └───┘
    //       │       │
    //       ├───────┤
    //       ▼       ▼
    //     ┌───┐   ┌───┐
    //     │ C │   │ D │
    //     └───┘   └───┘
    for dir in ["TD", "LR"] {
        let mut seen: Vec<(u8, String)> = Vec::new();
        for mask in 1u8..16 {
            let Some(out) = render(&k22_subset(dir, mask), &CALC) else {
                continue;
            };
            let drawing = out.join("\n");
            if let Some((other, _)) = seen.iter().find(|(_, d)| *d == drawing) {
                panic!("{dir}: {mask:04b} and {other:04b} draw the same picture:\n{drawing}");
            }
            seen.push((mask, drawing));
        }
        assert!(
            seen.iter().any(|(m, _)| *m == 0b1111),
            "{dir}: every connection was written, which is what a run says"
        );
    }
}

#[test]
fn an_edge_a_band_cannot_carry_is_routed_round_it_rather_than_declined() {
    // The run cannot say these three edges without offering the fourth,
    // and no order changes that: the two parents meet at the child they
    // share. Taking one edge off the band and out to a lane of its own —
    // the road an edge that skips a rank already takes — leaves a band the
    // rest can say honestly, and gives that edge a run nothing else is on.
    for dir in ["TD", "LR", "BT", "RL"] {
        for code in [
            format!("flowchart {dir}\n A --> C\n A --> D\n B --> C\n"),
            format!("flowchart {dir}\n A --> C\n A --> D\n B --> D\n"),
            format!("flowchart {dir}\n A --> C\n B --> C\n B --> D\n"),
        ] {
            assert!(render(&code, &CALC).is_some(), "declined:\n{code}");
        }
    }
}

#[test]
fn a_routed_edge_is_given_a_road_clear_of_every_box() {
    // A lane is out past the far end of every rank, and the run reaching
    // it passes behind whatever boxes stand between: it came out of hiding
    // beside the box next door and read as that box's edge —
    // `│ C │◀──│ D │─┘` for a run that starts at `B`. So the rank is
    // ordered to put both of its ends last, and where that cannot be had
    // the chart is declined.
    let out = rows("flowchart TD\n A --> C\n A --> D\n B --> C\n");
    let row = row_of(&out, "│ C │");
    assert!(
        row.find("│ D │") < row.find("│ C │"),
        "C is not the last box of its rank: {row:?}\n{}",
        out.join("\n")
    );

    // `Z`, `A` and `B` all reach the pair below them, so whichever edge
    // were taken out would have a box beside it whichever way round they
    // are put.
    for dir in ["TD", "LR", "BT", "RL"] {
        let code = format!("flowchart {dir}\n Z --> C\n Z --> D\n A --> D\n B --> C\n");
        assert!(render(&code, &CALC).is_none(), "drawn anyway:\n{code}");
    }
}

#[test]
fn an_edge_that_skips_a_rank_is_given_a_clear_road_too() {
    // The same road, and a claim about it that was not true: an edge that
    // skips a rank was let out unasked, on the grounds that it hides behind
    // boxes belonging to ranks it has nothing to do with. The boxes in its
    // way belong to its own rank. `A --> C` beside `B --> Z` reached the
    // lane along C's row, passed behind `Z` and came out the far side as
    // `│ C │◀──│ Z │─┘`, joining two boxes nobody joined. Ordering `C` last
    // of its rank is all it takes, and the arrowhead then sits against the
    // box it points at however many boxes are beside it.
    for k in 1..5 {
        let siblings: String = (0..k).map(|i| format!(" B --> Z{i}\n")).collect();
        let code = format!("flowchart TD\n A --> B --> C\n A --> C\n{siblings}");
        let out = rows(&code);
        let joined = out.join("\n");
        assert!(
            out.iter().any(|r| r.ends_with("│ C │◀┘")),
            "{k} siblings, something stands beside C:\n{joined}"
        );
    }
}

#[test]
fn a_chart_whose_routed_edges_cannot_all_have_a_clear_road_is_declined() {
    // Two edges skip a rank, and their four ends are the two boxes of one
    // rank and the two of another. Only one box of a rank can be its last,
    // so whichever way round the ranks are put, one of the two runs would
    // pass behind a box and come out as its edge.
    for dir in ["TD", "LR", "BT", "RL"] {
        let code =
            format!("flowchart {dir}\n A --> X --> C\n B --> Y --> D\n A --> C\n B --> D\n");
        assert!(render(&code, &CALC).is_none(), "drawn anyway:\n{code}");
    }
}

#[test]
fn a_routed_edge_keeps_its_label_and_leaves_the_others_theirs() {
    // Written on the band all three shared one row and the second was set
    // down over the first. The one taken out carries its label beside its
    // own run, where nothing else on the canvas can reach it.
    let out = rows("flowchart TD\n A -->|ac| C\n A -->|ad| D\n B -->|bc| C\n");
    let joined = out.join("\n");
    for label in ["ac", "ad", "bc"] {
        assert!(joined.contains(label), "{label} lost:\n{joined}");
    }
    let lane = out
        .iter()
        .find(|r| r.contains("bc"))
        .unwrap_or_else(|| panic!("{joined}"));
    assert!(
        !lane.contains("│ A │") && !lane.contains("│ B │"),
        "the routed label is still on the band: {lane:?}\n{joined}"
    );
}

#[test]
fn a_rank_written_in_the_wrong_order_is_swapped_rather_than_the_chart_declined() {
    // `C` is introduced before `D` and then hung off the later of the two
    // parents, so the two runs are threaded through each other for no
    // reason the graph gives. Swapping the pair is the whole of the fix,
    // and declining a chart over the order it happened to be written in
    // says nothing true about it.
    let code = "flowchart TD\n C --> E\n D --> E\n A --> D\n B --> C\n";
    let out = rows(code);
    let row = row_of(&out, "│ D │");
    assert!(
        row.find("│ D │") < row.find("│ C │"),
        "not swapped: {row:?}\n{}",
        out.join("\n")
    );
    // Each parent now drops straight onto its child, so only the band
    // below them — where `D` and `C` do meet at `E` — has a bus in it.
    let buses = out
        .iter()
        .filter(|r| r.contains('┬') || r.contains('┼') || r.contains('┴'))
        .count();
    assert_eq!(buses, 1, "still threaded:\n{}", out.join("\n"));

    // Sideways it is the rows that were the wrong way round.
    let out = rows("flowchart LR\n C --> E\n D --> E\n A --> D\n B --> C\n");
    assert!(
        row_of(&out, "│ A │").contains("│ D │"),
        "A and D are not level:\n{}",
        out.join("\n")
    );
}

#[test]
fn untangling_one_band_does_not_tangle_the_one_after_it() {
    // The sweep runs over every rank, so a swap made to separate two runs
    // can put the rank below it wrong. Whether it worked is checked rather
    // than assumed, and a chart is only drawn on an order that holds for
    // every band of it at once.
    let out = rows("flowchart TD\n C --> E\n D --> E\n F --> G\n A --> D\n B --> C\n");
    let joined = out.join("\n");
    for boxed in [
        "│ A │",
        "│ B │",
        "│ C │",
        "│ D │",
        "│ E │",
        "│ F │",
        "│ G │",
    ] {
        assert!(joined.contains(boxed), "{boxed} missing:\n{joined}");
    }
    let row = row_of(&out, "│ D │");
    assert!(
        row.find("│ D │") < row.find("│ C │"),
        "first band still threaded: {row:?}\n{joined}"
    );
}

#[test]
fn the_connections_a_shared_run_can_say_are_still_drawn() {
    // One parent reaching all of its children, all of a child's parents
    // reaching it, and the two of them stacked into a diamond, are the
    // whole of what a run says — and are most of what anyone draws.
    for dir in ["TD", "LR", "BT", "RL"] {
        for code in [
            format!("flowchart {dir}\n A --> C\n A --> D\n"),
            format!("flowchart {dir}\n A --> C\n B --> C\n"),
            format!("flowchart {dir}\n A --> B\n A --> C\n B --> D\n C --> D\n"),
            format!("flowchart {dir}\n A --> C\n A --> D\n B --> C\n B --> D\n"),
        ] {
            assert!(render(&code, &CALC).is_some(), "declined:\n{code}");
        }
    }
}

#[test]
fn a_cycle_is_declined_rather_than_drawn_wrong() {
    assert!(render("flowchart TD\n A --> B\n B --> A\n", &CALC).is_none());
}

#[test]
fn a_self_edge_is_declined_rather_than_dropped() {
    // The rank layout has nowhere to put one, so it was left out of the
    // drawing and the reader was shown a chart with an edge missing.
    assert!(render("flowchart TD\n A --> A\n", &CALC).is_none());
    assert!(render("flowchart TD\n A --> A\n A --> B\n", &CALC).is_none());
    assert!(render("flowchart LR\n A --> B\n B --> B\n", &CALC).is_none());
}

#[test]
fn a_node_named_after_a_keyword_is_still_a_node() {
    // Every one of these was declined and shown as source, because the id
    // begins with the letters of a word that means something else.
    for code in [
        "flowchart TD\n endpoint[X] --> B\n",
        "flowchart TD\n subgraphs[X] --> B\n",
        "flowchart TD\n classification[X] --> B\n",
        "flowchart TD\n styles[X] --> B\n",
        "flowchart TD\n clicks[X] --> B\n",
    ] {
        let chart = parse_flowchart(code).unwrap_or_else(|| panic!("declined:\n{code}"));
        assert_eq!(chart.nodes.len(), 2, "{code}");
    }
}

#[test]
fn a_participant_named_after_a_keyword_is_still_a_participant() {
    let out = rows("sequenceDiagram\n loopback->>optional: hi\n");
    let text = out.join("\n");
    assert!(
        text.contains("loopback") && text.contains("optional"),
        "{text}"
    );
}

#[test]
fn subgraphs_are_declined() {
    assert!(render("flowchart TD\n subgraph one\n A --> B\n end\n", &CALC).is_none());
}

#[test]
fn unknown_diagram_types_are_declined() {
    assert!(render("pie title Pets\n  \"Dogs\" : 42\n", &CALC).is_none());
    assert!(render("gantt\n title A\n", &CALC).is_none());
    assert!(render("", &CALC).is_none());
}

#[test]
fn a_sequence_diagram_draws_lifelines_and_arrows() {
    let out = rows(
        "sequenceDiagram\n    participant A as Alice\n    participant B as Bob\n    A->>B: Hello\n    B-->>A: Hi there\n",
    );
    let text = out.join("\n");
    assert!(text.contains("Alice") && text.contains("Bob"));
    assert!(text.contains("Hello") && text.contains("Hi there"));
    assert!(text.contains('▶') && text.contains('◀'));
    assert!(text.contains('╌'), "dashed replies are drawn dashed");
}

#[test]
fn sequence_participants_are_implied_by_messages() {
    let out = rows("sequenceDiagram\n    Alice->>Bob: Hi\n");
    let text = out.join("\n");
    assert!(text.contains("Alice") && text.contains("Bob"));
}

#[test]
fn an_arrow_in_a_message_is_part_of_the_message() {
    let out = rows("sequenceDiagram\n A->B: use --> this\n B-->>A: and A -> B too\n");
    let text = out.join("\n");
    assert!(text.contains("use --> this"), "{text}");
    assert!(text.contains("and A -> B too"), "{text}");
    // Two participants, not four, and not one called `A->B: use `.
    assert_eq!(text.matches('┌').count(), 2, "{text}");
}

#[test]
fn sequence_control_flow_is_declined() {
    assert!(
        render(
            "sequenceDiagram\n  loop every minute\n    A->>B: tick\n  end\n",
            &CALC
        )
        .is_none()
    );
}

#[test]
fn a_statement_may_end_in_a_semicolon() {
    // Mermaid's own documentation writes them, and reading `B;` as a node
    // id drew a chart with two boxes called B.
    let chart = parse_flowchart("graph TD;\n A --> B;\n B --> C;\n").unwrap();
    let ids: Vec<&str> = chart.nodes.iter().map(|n| n.id.as_str()).collect();
    assert_eq!(ids, ["A", "B", "C"]);
    assert_eq!(chart.edges.len(), 2);
}

#[test]
fn semicolons_separate_statements_on_one_line() {
    let chart = parse_flowchart("graph LR; A --> B; B --> C\n").unwrap();
    assert_eq!(chart.direction, Direction::LeftRight);
    assert_eq!(chart.nodes.len(), 3);
    assert_eq!(chart.edges.len(), 2);
}

#[test]
fn a_semicolon_inside_a_label_stays_in_the_label() {
    let chart = parse_flowchart("flowchart TD\n A[stop; then go] --> B\n").unwrap();
    assert_eq!(chart.nodes[0].label, "stop; then go");
    assert_eq!(chart.nodes.len(), 2);
}

#[test]
fn comments_are_ignored() {
    let chart = parse_flowchart("flowchart TD\n%% a comment\n A --> B\n").unwrap();
    assert_eq!(chart.edges.len(), 1);
}

#[test]
fn a_comment_after_a_statement_is_not_a_node() {
    let chart = parse_flowchart("flowchart TD\n A --> B; %% a trailing note\n").unwrap();
    let ids: Vec<&str> = chart.nodes.iter().map(|n| n.id.as_str()).collect();
    assert_eq!(ids, ["A", "B"]);
}

#[test]
fn styling_directives_are_ignored_rather_than_declined() {
    let chart = parse_flowchart(
        "flowchart TD\n A --> B\n classDef big fill:#f00\n class A big\n style B fill:#0f0\n",
    )
    .unwrap();
    assert_eq!(chart.nodes.len(), 2);
}

#[test]
fn the_kind_is_read_from_the_first_line_that_is_not_a_comment() {
    assert!(render("%% a comment\n\ngraph TD\nA-->B\n", &CALC).is_some());
    assert!(render("%% a comment\npie\ngraph TD\nA-->B\n", &CALC).is_none());
    assert!(render("\n%% only comments\n", &CALC).is_none());
}

#[test]
fn a_cycle_gets_no_ranks_and_a_chain_one_per_step() {
    let cyclic = parse_flowchart("graph TD\nA-->B\nB-->C\nC-->A\n").unwrap();
    assert!(ranks(&cyclic).is_none());
    let chain = parse_flowchart("graph TD\nA-->B\nB-->C\nA-->C\n").unwrap();
    assert_eq!(ranks(&chain).unwrap(), vec![0, 1, 2]);
}

#[test]
fn ranks_are_centred_across_and_down_the_canvas() {
    let by_rank = vec![vec![0], vec![1, 2]];
    assert_eq!(mdroll::layered::row_starts(&by_rank, 3), Some((vec![2, 0, 4], 7)));
    assert_eq!(mdroll::layered::column_starts(&by_rank, 3, &vec![5, 4, 6]), Some((vec![4, 0, 7], 13)));
    assert_eq!(mdroll::layered::row_starts(&vec![], 0), Some((vec![], 3)));
}

#[test]
fn the_header_word_sets_direction_and_reversal() {
    let lr = parse_flowchart("graph LR\n A --> B\n").unwrap();
    assert_eq!(lr.direction, Direction::LeftRight);
    assert!(!lr.reversed);
    let rl = parse_flowchart("flowchart RL\n A --> B\n").unwrap();
    assert_eq!(rl.direction, Direction::LeftRight);
    assert!(rl.reversed);
    let bt = parse_flowchart("flowchart BT\n A --> B\n").unwrap();
    assert_eq!(bt.direction, Direction::TopDown);
    assert!(bt.reversed);
    let td = parse_flowchart("flowchart  TD\n A --> B\n").unwrap();
    assert_eq!(td.direction, Direction::TopDown);
    assert!(!td.reversed);
}

#[test]
fn a_sequence_diagram_is_four_rows_plus_three_per_step() {
    let one = rows("sequenceDiagram\n  A->>B: hi\n");
    assert_eq!(one.len(), 7);
    let three = rows("sequenceDiagram\n  participant A\n  A->>B: hi\n  %% note to self\n  B-->>A: back\n  Note over A: done\n");
    assert_eq!(three.len(), 13);
}

#[test]
fn a_top_down_chart_has_three_rows_per_rank_at_least() {
    let out = rows("flowchart TD\n A --> B\n B --> C\n");
    assert!(out.len() >= 9);
}
