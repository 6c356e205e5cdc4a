use compression_tool::compression::CompressionTool;
use compression_tool::decompression::DecompressionTool;

// Compression and decompression of a text held in memory
#[test]
fn test_compress_decompress() {
    let text = "The quick brown fox jumps over the lazy dog.\nPack my box with five dozen liquor jugs!\n";
    let tool = CompressionTool::new(text);
    let compressed = tool.encode();
    let decompression_tool = DecompressionTool::new();
    let decompressed = decompression_tool.decompress(&compressed).unwrap();
    assert_eq!(text.as_bytes().to_vec(), decompressed);
}
