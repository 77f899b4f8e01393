use timberfs::grain::{
    append_page, build_filter, chunk_page, collapse_len, extend_step, filter_contains,
    first_record_offset, header_bytes, header_matches, page_of, rebase_step, rewritten,
    skip_records, tokenize_query, ExtendStep, Grain, PageStep, RebaseStep, GRAIN_MAGIC, GRAIN_MAGIC_V2,
    HEADER_LEN,
};
use timberfs::indexing::Building;
use timberfs::tokens::tokenize;

/// A grain whose chunk `i` contains exactly the token `tok<i>`, padded out.
fn write_grain(chunks: usize) -> (Vec<u8>, Vec<Vec<u8>>) {
    let mut out = header_bytes(HEADER_LEN);
    let mut tokens = Vec::new();
    for i in 0..chunks {
        let tok = format!("tok{i:04}").into_bytes();
        let mut set = vec![tok.clone()];
        for p in 0..4000 {
            set.push(format!("pad{i}x{p:04}").into_bytes());
        }
        set.sort();
        let filter = build_filter(&set);
        out.extend_from_slice(&(filter.len() as u32).to_le_bytes());
        out.extend_from_slice(&filter);
        tokens.push(tok);
    }
    (out, tokens)
}

#[test]
fn a_fresh_grain_is_still_v1_on_disk() {
    let (buf, _) = write_grain(3);
    assert_eq!(buf[..8], GRAIN_MAGIC);
    assert_eq!(&buf[12..16], &[0, 0, 0, 0], "the offset field stays zero");
    assert_eq!(first_record_offset(&buf), Some(HEADER_LEN));
    assert!(header_matches(&buf));
}

#[test]
fn rebase_head_drops_a_prefix_and_keeps_the_rest_aligned() {
    let (buf, tokens) = write_grain(12);
    let before = Grain::load(&buf).unwrap();
    assert_eq!(before.chunk_count(), 12);

    let survivors = match rebase_step(Some(&buf), 5) {
        RebaseStep::Cut { survivors } => survivors,
        other => panic!("{other:?}"),
    };
    let after = Grain::load(&rewritten(&buf, survivors)).unwrap();
    assert_eq!(after.chunk_count(), 7, "12 chunks minus the 5 dropped");
    for (i, t) in tokens.iter().enumerate().skip(5) {
        assert!(
            after.may_contain_all(i - 5, std::slice::from_ref(t)),
            "token of old chunk {i} lost from new chunk {}",
            i - 5
        );
    }
    let survivors_claim_dropped =
        (0..7).any(|i| after.may_contain_all(i, std::slice::from_ref(&tokens[0])));
    assert!(
        !survivors_claim_dropped,
        "a dropped chunk's filter survived"
    );
}

#[test]
fn a_rebased_grain_reads_back_through_both_paths() {
    let (buf, _) = write_grain(10);
    let survivors = match rebase_step(Some(&buf), 4) {
        RebaseStep::Cut { survivors } => survivors,
        other => panic!("{other:?}"),
    };
    let plain = rewritten(&buf, survivors);
    assert_eq!(first_record_offset(&plain), Some(HEADER_LEN));
    assert_eq!(skip_records(&plain, HEADER_LEN, 6), Some(plain.len()));

    // Whole blocks cut off the front, and the header stamped over what is
    // left of the last dropped record.
    let cut = collapse_len(survivors, 4096) as usize;
    let mut collapsed = buf[cut..].to_vec();
    let first = survivors - cut;
    collapsed[..HEADER_LEN].copy_from_slice(&header_bytes(first));
    assert_eq!(collapsed[..8], GRAIN_MAGIC_V2);
    assert!(first > HEADER_LEN, "dead bytes were left behind");
    assert_eq!(first_record_offset(&collapsed), Some(first));
    assert_eq!(skip_records(&collapsed, first, 6), Some(collapsed.len()));
    assert_eq!(Grain::load(&collapsed).unwrap().chunk_count(), 6);
}

#[test]
fn rebasing_past_the_end_drops_the_grain() {
    let (buf, _) = write_grain(3);
    assert_eq!(rebase_step(Some(&buf), 9), RebaseStep::Remove);
    assert_eq!(rebase_step(Some(b"no grain"), 1), RebaseStep::Remove);
}

#[test]
fn rebase_is_a_noop_without_a_grain() {
    assert_eq!(rebase_step(None, 3), RebaseStep::Nothing);
    let (buf, _) = write_grain(1);
    assert_eq!(rebase_step(Some(&buf), 0), RebaseStep::Nothing);
}

#[test]
fn an_indexed_chunk_answers_for_what_it_holds() {
    let data = b"2026-08-21 error: connection refused by upstream-7\n";
    let page = page_of(data);
    let PageStep::Write(buf) = append_page(None, 0, &page.record[4..]) else {
        panic!("the first page starts an index");
    };
    let grain = Grain::load(&buf).unwrap();
    assert_eq!(grain.chunk_count(), 1);
    assert!(grain.may_contain_all(0, &tokenize_query("connection refused")));
    assert!(!grain.may_contain_all(0, &tokenize_query("accepted")));
    assert!(grain.may_contain_all(5, &tokenize_query("anything")), "no filter: scan it");
    assert_eq!(page.tokens, tokenize(data).len());
}

#[test]
fn a_compressed_chunk_is_indexed_by_its_content() {
    let data = b"alpha beta gamma delta\n".repeat(50);
    let comp = zstd::stream::encode_all(&data[..], 3).unwrap();
    let page = chunk_page(&comp).unwrap();
    assert_eq!(page.record, page_of(&data).record);
    assert!(chunk_page(b"not compressed at all").is_none());
}

#[test]
fn an_index_is_extended_from_where_it_ends() {
    let (mut buf, _) = write_grain(2);
    assert_eq!(extend_step(None, 2), ExtendStep::Rebuild);
    assert_eq!(extend_step(Some(b"junk"), 2), ExtendStep::Rebuild);
    assert_eq!(extend_step(Some(&buf), 1), ExtendStep::Rebuild);
    assert_eq!(extend_step(Some(&buf), 2), ExtendStep::UpToDate);
    let keep = buf.len();
    buf.extend_from_slice(&[9, 0, 0, 0, 1]);
    assert_eq!(extend_step(Some(&buf), 3), ExtendStep::Extend { keep, covered: 2 });
}

#[test]
fn a_filter_has_no_false_negatives() {
    let tokens: Vec<Vec<u8>> = (0..500).map(|i| format!("token{i:03}").into_bytes()).collect();
    let filter = build_filter(&tokens);
    assert!(tokens.iter().all(|t| filter_contains(&filter, t)));
    let absent = (0..500)
        .filter(|i| filter_contains(&filter, format!("absent{i}").as_bytes()))
        .count();
    assert!(absent < 50, "{absent} of 500 claimed");
}

#[test]
fn building_an_index_says_how_far_it_has_come() {
    let page = page_of(b"one two three");
    let mut b = Building::new(20);
    let mut said = Vec::new();
    for _ in 0..20 {
        said.extend(b.take(&page));
    }
    assert_eq!(said.len(), 9, "every tenth but the last");
    assert_eq!(said[0], "timberfs: reindex 10% (2 of 20 chunks)");
    assert_eq!(said[8], "timberfs: reindex 90% (18 of 20 chunks)");
    let record = page.record.len() as u64;
    assert_eq!(b.len, 16 + 20 * record);
    assert_eq!(
        b.summary(),
        format!(
            "timberfs: indexed 20 chunk(s), 60 distinct tokens (3 avg/chunk), grain is {} bytes ({} bytes/chunk avg)",
            16 + 20 * record,
            (16 + 20 * record) / 20
        )
    );
    assert_eq!(
        Building::new(0).summary(),
        "timberfs: indexed 0 chunk(s), 0 distinct tokens (0 avg/chunk), grain is 16 bytes (16 bytes/chunk avg)"
    );
    let mut few = Building::new(9);
    assert!((0..9).all(|_| few.take(&page).is_none()));
    let mut more = Building::resumed(5, 3, 100);
    more.take(&page);
    more.take(&page);
    assert_eq!(more.len, 100 + 2 * record);
    assert_eq!(
        more.extended(3),
        "timberfs: grain extended: 2 new chunk(s) indexed (6 tokens), 5 total"
    );
}

#[test]
fn an_adopted_page_is_filed_under_its_own_chunk_or_not_at_all() {
    let page = page_of(b"adopted elsewhere");
    let filter = &page.record[4..];
    let (buf, _) = write_grain(2);
    let PageStep::Write(more) = append_page(Some(&buf), 2, filter) else {
        panic!("it is the next record");
    };
    assert_eq!(more, [buf.clone(), page.record.clone()].concat());
    assert_eq!(Grain::load(&more).unwrap().page(2), Some(filter));

    let mut torn = buf.clone();
    torn.extend_from_slice(&[9, 0, 0, 0, 1]);
    assert_eq!(
        append_page(Some(&torn), 2, filter),
        PageStep::Write(more),
        "the partial record of a crash is cut off first"
    );
    assert_eq!(append_page(Some(&buf), 1, filter), PageStep::Remove, "more filters than chunks");
    assert_eq!(append_page(Some(&buf), 3, filter), PageStep::Remove, "an index that lags");
    assert_eq!(append_page(None, 3, filter), PageStep::Remove, "record 0 is not chunk 3's");
    for junk in [&b""[..], b"GRAIN001", b"GRAIN003 and so on, for long enough"] {
        assert_eq!(append_page(Some(junk), 0, filter), PageStep::Remove, "not a grain");
    }
}
