use jina_api::embedding::{embedding_weights, embedding_weights_batch, hash_window};

const UNIT: f32 = 0.05;

fn normalized(weights: &[i128]) -> Vec<f32> {
    let v: Vec<f32> = weights.iter().map(|&w| w as f32 * UNIT).collect();
    let norm: f32 = v.iter().map(|x| x * x).sum::<f32>().sqrt();
    if norm > 0.0 {
        v.iter().map(|x| x / norm).collect()
    } else {
        v
    }
}

fn norm(v: &[f32]) -> f32 {
    v.iter().map(|x| x * x).sum::<f32>().sqrt()
}

#[test]
fn test_pseudo_embedding() {
    let e1 = normalized(&embedding_weights(b"Ada"));
    let e2 = normalized(&embedding_weights(b"Ada"));
    let e3 = normalized(&embedding_weights(b"Jan"));

    // Same text, same embedding
    assert_eq!(e1, e2);

    // Different text, different embedding
    assert_ne!(e1, e3);

    // Correct dimension
    assert_eq!(e1.len(), 1024);

    // Normalized (L2 norm close to 1)
    let n = norm(&e1);
    assert!((n - 1.0).abs() < 0.01);
}

#[test]
fn weights_are_deterministic() {
    let text = b"the quick brown fox";
    assert_eq!(embedding_weights(text), embedding_weights(text));
}

#[test]
fn distinct_short_texts_differ() {
    assert_ne!(embedding_weights(b"Ada"), embedding_weights(b"Jan"));
}

#[test]
fn every_length_has_full_dimension() {
    for text in [&b""[..], b"x", b"xy", b"xyz", b"a longer sentence of text"] {
        assert_eq!(embedding_weights(text).len(), 1024);
    }
    let long = vec![b'q'; 5000];
    assert_eq!(embedding_weights(&long).len(), 1024);
}

#[test]
fn nonempty_texts_normalize_to_unit_length() {
    for text in [&b"a"[..], b"ab", b"abc", b"Ada Lovelace", b"\xff\x00\x80 not utf-8"] {
        let v = normalized(&embedding_weights(text));
        assert!((norm(&v) - 1.0).abs() < 0.01);
    }
}

#[test]
fn empty_text_is_zero_vector() {
    let w = embedding_weights(b"");
    assert_eq!(w, vec![0i128; 1024]);
    let v = normalized(&w);
    assert_eq!(norm(&v), 0.0);
}

#[test]
fn batch_is_elementwise() {
    let texts = vec![b"Ada".to_vec(), b"Jan".to_vec()];
    let batch = embedding_weights_batch(&texts);
    assert_eq!(batch, vec![embedding_weights(b"Ada"), embedding_weights(b"Jan")]);
}

#[test]
fn empty_batch_is_empty() {
    let texts: Vec<Vec<u8>> = Vec::new();
    assert!(embedding_weights_batch(&texts).is_empty());
}

#[test]
fn window_hash_known_values() {
    assert_eq!(hash_window(b"", 0, 0, 0), 0xaf63_bd4c_8601_b7df);
    assert_eq!(hash_window(b"Ada", 0, 3, 0), 5398521325176230753);
    assert_eq!(hash_window(b"Ada", 0, 3, 1), 5398520225664602542);
}

#[test]
fn single_byte_weights_exact() {
    let w = embedding_weights(b"a");
    let expected: [(usize, i128); 17] = [
        (0, 2), (8, 2), (79, -2), (123, -2), (137, 2), (155, 2), (241, 2), (324, -2), (388, 1),
        (446, -2), (484, -2), (519, 2), (544, 2), (798, -2), (852, 2), (949, 2), (994, 2),
    ];
    let mut want = vec![0i128; 1024];
    for (k, v) in expected {
        want[k] = v;
    }
    assert_eq!(w, want);
}

#[test]
fn three_byte_weights_exact() {
    let w = embedding_weights(b"Ada");
    let expected: [(usize, i128); 15] = [
        (1, -2), (4, 2), (19, 2), (74, -2), (260, 1), (310, -2), (390, 1), (401, 1), (616, -2),
        (650, 2), (694, -2), (696, -2), (865, -2), (870, 2), (896, 2),
    ];
    let mut want = vec![0i128; 1024];
    for (k, v) in expected {
        want[k] = v;
    }
    assert_eq!(w, want);
}

#[test]
fn odd_length_text_has_nonzero_weights() {
    for text in [&b"q"[..], b"abc", b"hello"] {
        assert!(embedding_weights(text).iter().any(|&w| w != 0));
    }
}

#[test]
fn weights_of_odd_text_sum_to_odd_total() {
    let total: i128 = embedding_weights(b"hello").iter().sum();
    assert_eq!(total.rem_euclid(2), 1);
}

#[test]
fn client_keeps_its_key() {
    let client = jina_api::client::JinaClient::new("key-123");
    assert_eq!(client.api_key(), "key-123");
}
