# degrees
0x19
0x19
0x1A
0x1B
0x1A
