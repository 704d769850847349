use onebrc::line::Line;
use onebrc::pool::{BlockState, BufferBlock, Buffers, PoolError, N_BLOCKS};
use onebrc::reader::{BlockEnd, MissingNewline, Remainder, BLOCK_SIZE, REMAINDER_CAP};
use onebrc::ref_hashmap::{RefHashMap, RefKey};
use onebrc::render::show_results;
use onebrc::station::Station;
use onebrc::worker::{buf_parse, join_tables, merge_into, update, TABLE_CAPACITY};

/// Cuts an input into blocks as the reader does.
fn split_blocks(input: &[u8]) -> Vec<Vec<u8>> {
    let mut rem = Remainder::new();
    let mut pos = 0;
    let mut blocks = Vec::new();
    loop {
        let mut block = BufferBlock::new();
        let mut start = rem.begin_block(&mut block.buf);
        let n = std::cmp::min(BLOCK_SIZE - start, input.len() - pos);
        block.buf[start..start + n].copy_from_slice(&input[pos..pos + n]);
        pos += n;
        start += n;
        match rem.finish_block(&mut block.buf, start) {
            Ok(BlockEnd::Full) => blocks.push(block.buf),
            Ok(BlockEnd::Last) => {
                blocks.push(block.buf);
                break;
            }
            Err(MissingNewline) => panic!("missing newline"),
        }
    }
    blocks
}

/// Blocks parsed round-robin by `parsers` tables, joined and rendered.
fn run_with(input: &[u8], parsers: usize) -> String {
    let blocks = split_blocks(input);
    let mut tables: Vec<RefHashMap> = (0..parsers).map(|_| RefHashMap::with_capacity(TABLE_CAPACITY)).collect();
    for (i, b) in blocks.iter().enumerate() {
        buf_parse(&mut tables[i % parsers], b);
    }
    let joined = join_tables(tables);
    String::from_utf8(show_results(&joined.drain())).unwrap()
}

/// The whole input parsed as one buffer by one table.
fn run_single(input: &[u8]) -> String {
    let mut t = RefHashMap::with_capacity(TABLE_CAPACITY);
    buf_parse(&mut t, input);
    String::from_utf8(show_results(&t.drain())).unwrap()
}

fn table_of(input: &[u8]) -> Vec<(Vec<u8>, Station)> {
    let mut t = RefHashMap::with_capacity(TABLE_CAPACITY);
    buf_parse(&mut t, input);
    t.drain()
}

struct Lcg(u64);

impl Lcg {
    fn next(&mut self) -> u64 {
        self.0 = self.0.wrapping_mul(6364136223846793005).wrapping_add(1442695040888963407);
        self.0 >> 33
    }
}

fn temp_text(v: i64) -> String {
    let a = v.abs();
    format!("{}{}.{}", if v < 0 { "-" } else { "" }, a / 10, a % 10)
}

/// Records over `stations` names, temperatures in [-99.9, 99.9].
fn random_records(n: usize, stations: usize, seed: u64) -> Vec<(String, i64)> {
    let mut rng = Lcg(seed);
    (0..n)
        .map(|_| {
            let s = (rng.next() % stations as u64) as usize;
            let t = (rng.next() % 1999) as i64 - 999;
            (format!("Station{:03}", s), t)
        })
        .collect()
}

fn input_of(recs: &[(String, i64)]) -> Vec<u8> {
    let mut out = String::new();
    for (name, t) in recs {
        out.push_str(name);
        out.push(';');
        out.push_str(&temp_text(*t));
        out.push('\n');
    }
    out.into_bytes()
}

/// A straightforward single-threaded aggregation, rendered the same way:
/// mean rounded to the nearest tenth, halves upwards.
fn reference(recs: &[(String, i64)]) -> String {
    let mut m: std::collections::BTreeMap<Vec<u8>, (i64, i64, i64, i64)> = std::collections::BTreeMap::new();
    for (name, t) in recs {
        let e = m.entry(name.clone().into_bytes()).or_insert((*t, *t, 0, 0));
        e.0 = e.0.min(*t);
        e.1 = e.1.max(*t);
        e.2 += *t;
        e.3 += 1;
    }
    let parts: Vec<String> = m
        .iter()
        .map(|(k, (mn, mx, sum, c))| {
            let mean = (2 * sum + c).div_euclid(2 * c);
            format!(
                "{}={}/{}/{}",
                String::from_utf8(k.clone()).unwrap(),
                temp_text(*mn),
                temp_text(mean),
                temp_text(*mx)
            )
        })
        .collect();
    format!("{{{}}}\n", parts.join(", "))
}

#[test]
fn s1_four_records() {
    let input = b"Hamburg;12.0\nBulawayo;8.9\nPalembang;38.8\nHamburg;13.0\n";
    assert_eq!(
        run_with(input, 1),
        "{Bulawayo=8.9/8.9/8.9, Hamburg=12.0/12.5/13.0, Palembang=38.8/38.8/38.8}\n"
    );
}

#[test]
fn s2_zero_records() {
    let input = b"A;0.0\nA;0.0\nA;0.0\n";
    assert_eq!(run_with(input, 2), "{A=0.0/0.0/0.0}\n");
    let t = table_of(input);
    assert_eq!(t.len(), 1);
    assert_eq!(t[0].1.count(), 3);
}

#[test]
fn s3_negative_and_positive() {
    assert_eq!(run_with(b"A;-1.0\nA;1.0\n", 1), "{A=-1.0/0.0/1.0}\n");
}

#[test]
fn s4_names_sorted() {
    assert_eq!(run_with(b"Zz;10.0\nAa;10.0\n", 1), "{Aa=10.0/10.0/10.0, Zz=10.0/10.0/10.0}\n");
}

#[test]
fn s5_shuffled_records_all_worker_counts() {
    let recs = random_records(1_000_000, 400, 7);
    let input = input_of(&recs);
    let expected = reference(&recs);
    let blocks = split_blocks(&input);
    let block_entries: Vec<Vec<(Vec<u8>, Station)>> = blocks.iter().map(|b| table_of(b)).collect();
    for parsers in 1..=16usize {
        let mut tables: Vec<RefHashMap> = (0..parsers).map(|_| RefHashMap::with_capacity(TABLE_CAPACITY)).collect();
        for (i, entries) in block_entries.iter().enumerate() {
            let t = &mut tables[i % parsers];
            for (name, st) in entries {
                let entry = t.entry_ref(name);
                let entry = entry.and_modify(t, st);
                entry.or_insert_with(t, *st);
            }
        }
        let joined = join_tables(tables);
        let out = String::from_utf8(show_results(&joined.drain())).unwrap();
        assert_eq!(out, expected, "parsers = {}", parsers);
    }
}

#[test]
fn s6_record_split_across_block_boundary() {
    let mut input = Vec::new();
    let mut i = 0u32;
    while input.len() < BLOCK_SIZE - 1 - 20 {
        input.extend_from_slice(format!("S{};{}.{}\n", i % 37, i % 50, i % 10).as_bytes());
        i += 1;
    }
    let fill = BLOCK_SIZE - 1 - input.len();
    let name = "N".repeat(fill - 5);
    input.extend_from_slice(format!("{};1.5\n", name).as_bytes());
    assert_eq!(input.len(), BLOCK_SIZE - 1);
    input.extend_from_slice(b"Tail;-3.5\n");
    assert_eq!(split_blocks(&input).len(), 2);
    assert_eq!(run_with(&input, 2), run_single(&input));
}

#[test]
fn counts_add_up_to_records() {
    let recs = random_records(20_000, 50, 11);
    let input = input_of(&recs);
    let total: u64 = table_of(&input).iter().map(|(_, s)| s.count()).sum();
    assert_eq!(total, 20_000);
}

#[test]
fn min_mean_max_ordered() {
    let recs = random_records(20_000, 50, 12);
    let out = run_with(&input_of(&recs), 3);
    let body = out.trim_end().trim_start_matches('{').trim_end_matches('}');
    for part in body.split(", ") {
        let vals: Vec<f64> = part.split('=').nth(1).unwrap().split('/').map(|v| v.parse().unwrap()).collect();
        assert!(vals[0] <= vals[1] && vals[1] <= vals[2], "{}", part);
    }
}

#[test]
fn worker_counts_agree() {
    let recs = random_records(30_000, 100, 13);
    let input = input_of(&recs);
    let one = run_with(&input, 1);
    for parsers in 2..=8 {
        assert_eq!(run_with(&input, parsers), one);
    }
    assert_eq!(one, reference(&recs));
}

#[test]
fn repeated_runs_identical() {
    let input = input_of(&random_records(10_000, 40, 14));
    assert_eq!(run_with(&input, 4), run_with(&input, 4));
}

#[test]
fn permutation_gives_same_output() {
    let recs = random_records(10_000, 40, 15);
    let mut shuffled = recs.clone();
    let mut rng = Lcg(99);
    for i in (1..shuffled.len()).rev() {
        let j = (rng.next() % (i as u64 + 1)) as usize;
        shuffled.swap(i, j);
    }
    assert_eq!(run_with(&input_of(&recs), 2), run_with(&input_of(&shuffled), 2));
}

#[test]
fn parse_round_trip_four_digits() {
    for x in 0..10_000i32 {
        for y in 0..10i32 {
            let pos = format!("Name;{}.{}", x, y);
            let line = Line::parse_bytes(pos.as_bytes());
            assert_eq!(line.station, b"Name");
            assert_eq!(line.measurement, 10 * x + y);
            let neg = format!("Name;-{}.{}", x, y);
            assert_eq!(Line::parse_bytes(neg.as_bytes()).measurement, -(10 * x + y));
        }
    }
}

#[test]
fn alignment_prefix_shifts() {
    let recs = random_records(8_000, 60, 16);
    let body = input_of(&recs);
    let expected = run_single(&body);
    let mut shifts: Vec<usize> = (0..64).collect();
    shifts.extend(BLOCK_SIZE - 64..BLOCK_SIZE);
    shifts.extend((64..BLOCK_SIZE - 64).step_by(997));
    for k in shifts {
        let mut input = vec![b'\n'; k];
        input.extend_from_slice(&body);
        assert_eq!(run_with(&input, 2), expected, "prefix {}", k);
    }
}

#[test]
fn final_newline_optional() {
    let with = b"A;1.0\nB;2.5\nA;-3.0\n";
    let without = b"A;1.0\nB;2.5\nA;-3.0";
    assert_eq!(run_with(without, 1), run_with(with, 1));
    assert_eq!(run_with(without, 1), "{A=-3.0/-1.0/1.0, B=2.5/2.5/2.5}\n");
}

#[test]
fn empty_input_gives_empty_table() {
    assert_eq!(run_with(b"", 3), "{}\n");
}

#[test]
fn mean_rounds_halves_up() {
    assert_eq!(run_single(b"A;0.1\nA;0.2\n"), "{A=0.1/0.2/0.2}\n");
    assert_eq!(run_single(b"A;-0.1\nA;-0.2\n"), "{A=-0.2/-0.1/-0.1}\n");
    assert_eq!(run_single(b"A;1.0\nA;1.0\nA;1.1\n"), "{A=1.0/1.0/1.1}\n");
}

#[test]
fn name_with_semicolon_uses_last_one() {
    let line = Line::parse_bytes(b"a;b;-12.3");
    assert_eq!(line.station, b"a;b");
    assert_eq!(line.measurement, -123);
    let line = Line::parse_bytes(b"X;123.4");
    assert_eq!(line.measurement, 1234);
}

#[test]
fn zero_byte_ends_block_content() {
    let mut block = b"A;1.0\nB;2.0\n".to_vec();
    block.extend_from_slice(&[0, 0, 0]);
    block.extend_from_slice(b"C;3.0\n");
    let t = table_of(&block);
    assert_eq!(t.len(), 2);
    assert_eq!(t[0].0, b"A".to_vec());
    assert_eq!(t[1].0, b"B".to_vec());
}

#[test]
fn full_block_cut_at_last_newline() {
    let mut block = vec![b'x'; BLOCK_SIZE];
    block[BLOCK_SIZE - 30] = b'\n';
    block[BLOCK_SIZE - 20] = b'\n';
    let mut rem = Remainder::new();
    assert_eq!(rem.finish_block(&mut block, BLOCK_SIZE), Ok(BlockEnd::Full));
    assert_eq!(rem.len(), 19);
    assert_eq!(block[BLOCK_SIZE - 20], b'\n');
    assert!(block[BLOCK_SIZE - 19..].iter().all(|&b| b == 0));
    let mut next = vec![7u8; BLOCK_SIZE];
    assert_eq!(rem.begin_block(&mut next), 19);
    assert!(next[..19].iter().all(|&b| b == b'x'));
    assert_eq!(next[19], 7);
}

#[test]
fn full_block_without_newline_is_refused() {
    let mut block = vec![b'x'; BLOCK_SIZE];
    block[BLOCK_SIZE - REMAINDER_CAP - 1] = b'\n';
    let mut rem = Remainder::new();
    assert_eq!(rem.finish_block(&mut block, BLOCK_SIZE), Err(MissingNewline));
    assert_eq!(rem.len(), 0);
}

#[test]
fn short_block_is_last_and_zero_padded() {
    let mut block = vec![b'y'; BLOCK_SIZE];
    let mut rem = Remainder::new();
    assert_eq!(rem.finish_block(&mut block, 10), Ok(BlockEnd::Last));
    assert!(block[..10].iter().all(|&b| b == b'y'));
    assert!(block[10..].iter().all(|&b| b == 0));
}

#[test]
fn block_state_transitions() {
    let mut b = BufferBlock::new();
    assert_eq!(b.buf.len(), BLOCK_SIZE);
    assert_eq!(b.state, BlockState::Empty);
    assert_eq!(b.try_fill(), Ok(true));
    assert_eq!(b.try_parse(), Ok(false));
    b.mark_filled();
    assert_eq!(b.try_fill(), Ok(false));
    assert_eq!(b.try_parse(), Ok(true));
    b.mark_parsed();
    assert_eq!(b.state, BlockState::Empty);
    b.abandon();
    assert_eq!(b.try_fill(), Err(PoolError::ParserGone));
    assert_eq!(b.try_parse(), Err(PoolError::ReaderGone));
}

#[test]
fn buffers_have_one_ring_per_parser() {
    let buffers = Buffers::new(4);
    for n in 0..4 {
        let ring = buffers.get(n);
        assert_eq!(ring.len(), N_BLOCKS);
        assert!(ring.iter().all(|b| b.state == BlockState::Empty && b.buf.iter().all(|&x| x == 0)));
    }
    assert_eq!(buffers.into_rings().len(), 4);
}

#[test]
fn station_update_combines() {
    let mut a = Station::new(-15);
    a.observe(30);
    let mut b = Station::new(100);
    b.observe(-40);
    a.update(&b);
    assert_eq!((a.min(), a.max(), a.sum(), a.count()), (-40, 100, 75, 4));
}

#[test]
fn entry_api_inserts_once_then_modifies() {
    let mut t = RefHashMap::with_capacity(4);
    let name = b"Oslo".to_vec();
    let e = t.entry_ref(&name);
    let e = e.and_modify(&mut t, &Station::new(5));
    e.or_insert_with(&mut t, Station::new(5));
    let e = t.entry_ref(b"Oslo");
    let e = e.and_modify(&mut t, &Station::new(-5));
    e.or_insert_with(&mut t, Station::new(99));
    assert_eq!(t.len(), 1);
    let mut it = t.into_iter();
    let (k, s) = it.next().unwrap();
    assert_eq!(k, b"Oslo".to_vec());
    assert_eq!((s.min(), s.max(), s.count()), (-5, 5, 2));
    assert!(it.next().is_none());
}

#[test]
fn update_adds_parsed_line() {
    let mut t = RefHashMap::with_capacity(4);
    update(&mut t, Line::parse_bytes(b"B;2.0"));
    update(&mut t, Line::parse_bytes(b"A;1.0"));
    update(&mut t, Line::parse_bytes(b"B;-2.0"));
    let v = t.drain();
    assert_eq!(v.len(), 2);
    assert_eq!(v[0].0, b"A".to_vec());
    assert_eq!((v[1].1.min(), v[1].1.max(), v[1].1.sum()), (-20, 20, 0));
}

#[test]
fn ref_key_promotes_borrowed_bytes() {
    let bytes = b"Lima".to_vec();
    let k = RefKey::borrowed(&bytes);
    assert_eq!(k.as_slice(), b"Lima");
    assert_eq!(k.inner(), b"Lima".to_vec());
    let owned = RefKey::new(b"Quito".to_vec());
    assert_eq!(owned.inner(), b"Quito".to_vec());
}
